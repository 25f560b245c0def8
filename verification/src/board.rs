use vstd::prelude::*;

verus! {

/// A `size` x `size` sliding-tile board, stored row-major: the cell at row
/// `r`, column `c` is `cells[r * size + c]`. The value 0 denotes the blank.
#[derive(Debug)]
pub struct Board {
    pub size: usize,
    pub cells: Vec<u8>,
}

/// How many cells of `s` hold the value `v`.
pub open spec fn count_of(s: Seq<u8>, v: u8) -> nat
    decreases s.len(),
{
    if s.len() == 0 {
        0
    } else {
        count_of(s.drop_last(), v) + if s.last() == v {
            1nat
        } else {
            0nat
        }
    }
}

/// The value the goal board holds at flat index `i`: the tiles 1, 2, ...,
/// `n * n - 1` in order, with the blank in the last cell.
pub open spec fn goal_cell(n: int, i: int) -> u8 {
    if i == n * n - 1 {
        0u8
    } else {
        (i + 1) as u8
    }
}

/// The goal arrangement for an `n` x `n` board.
pub open spec fn goal_seq(n: int) -> Seq<u8> {
    Seq::new((n * n) as nat, |i: int| goal_cell(n, i))
}

/// How many of the cells of `s` hold a non-blank tile that is out of its
/// goal position, where the cell at index `i` of `s` belongs at `goal_cell(n, i)`.
pub open spec fn mismatch_count(s: Seq<u8>, n: int) -> nat
    decreases s.len(),
{
    if s.len() == 0 {
        0
    } else {
        mismatch_count(s.drop_last(), n) + if s.last() != 0 && s.last() != goal_cell(
            n,
            s.len() - 1,
        ) {
            1nat
        } else {
            0nat
        }
    }
}

impl Board {
    /// A valid board: side in {2, 3, 4}, one cell per flat index, and every
    /// value in 0 .. size * size present exactly once (so exactly one blank).
    pub open spec fn wf(&self) -> bool {
        &&& 2 <= self.size <= 4
        &&& self.cells@.len() == self.size * self.size
        &&& forall|v: u8| 0 <= v < self.size * self.size ==> count_of(self.cells@, v) == 1
    }

    /// The board's score against the goal arrangement.
    pub open spec fn spec_cost(&self) -> nat {
        mismatch_count(self.cells@, self.size as int)
    }
}

/// Flat indices `i` and `j` name edge-sharing cells of an `n` x `n` grid:
/// either horizontal neighbours in one row, or vertical neighbours in one column.
pub open spec fn adjacent(n: int, i: int, j: int) -> bool {
    &&& 0 <= i < n * n
    &&& 0 <= j < n * n
    &&& {
        ||| (i / n == j / n && (j == i + 1 || i == j + 1))
        ||| (i % n == j % n && (j == i + n || i == j + n))
    }
}

/// `b` arises from `a` by one legal slide of the blank from cell `i` into the
/// adjacent cell `j`: the two cells swap and every other cell is untouched.
pub open spec fn slide_step(n: int, a: Seq<u8>, b: Seq<u8>, i: int, j: int) -> bool {
    &&& a.len() == n * n
    &&& adjacent(n, i, j)
    &&& a[i] == 0
    &&& b == a.update(i, a[j]).update(j, 0u8)
}

/// `b` arises from `a` by one legal slide of the blank.
pub open spec fn is_slide(n: int, a: Seq<u8>, b: Seq<u8>) -> bool {
    exists|i: int, j: int| slide_step(n, a, b, i, j)
}

impl Clone for Board {
    fn clone(&self) -> (r: Board)
        ensures
            r.size == self.size,
            r.cells@ == self.cells@,
    {
        Board { size: self.size, cells: self.cells.clone() }
    }
}

/// The cost heuristic: the number of non-blank tiles that are not in their
/// goal position. The goal board itself scores 0.
pub fn calculate_cost(board: &Board) -> (c: u32)
    requires
        board.cells@.len() == board.size * board.size,
        board.size <= 4,
    ensures
        c == board.spec_cost(),
        c <= board.cells@.len(),
{
    let n = board.size;
    let len = board.cells.len();
    proof {
        assert(n * n <= 16) by (nonlinear_arith)
            requires
                n <= 4,
        ;
    }
    let mut c: u32 = 0;
    for i in 0..len
        invariant
            len == board.cells@.len(),
            len == board.size * board.size,
            len <= 16,
            n == board.size,
            c == mismatch_count(board.cells@.take(i as int), n as int),
            c <= i,
    {
        let v = board.cells[i];
        let g: u8 = if i == len - 1 {
            0
        } else {
            (i + 1) as u8
        };
        assert(g == goal_cell(n as int, i as int));
        if v != 0 && v != g {
            c = c + 1;
        }
        proof {
            let s = board.cells@;
            assert(s.take(i + 1).drop_last() =~= s.take(i as int));
            assert(s.take(i + 1).last() == s[i as int]);
        }
    }
    proof {
        assert(board.cells@.take(len as int) =~= board.cells@);
    }
    c
}

/// The goal board has cost zero: every tile of the goal arrangement sits in
/// its own goal position.
pub proof fn lemma_goal_cost_zero(n: int)
    requires
        1 <= n,
    ensures
        mismatch_count(goal_seq(n), n) == 0,
{
    lemma_goal_prefix_cost(n, n * n);
    assert(goal_seq(n).take(n * n) =~= goal_seq(n));
}

/// A cell holding `v` witnesses that `v` is counted at least once.
pub proof fn lemma_count_at_least_one(s: Seq<u8>, v: u8, i: int)
    requires
        0 <= i < s.len(),
        s[i] == v,
    ensures
        count_of(s, v) >= 1,
    decreases s.len(),
{
    if i < s.len() - 1 {
        lemma_count_at_least_one(s.drop_last(), v, i);
    }
}

/// A value counted at least once sits in some cell.
pub proof fn lemma_count_pos_exists(s: Seq<u8>, v: u8)
    requires
        count_of(s, v) >= 1,
    ensures
        exists|i: int| 0 <= i < s.len() && s[i] == v,
    decreases s.len(),
{
    if s.last() == v {
        assert(s[s.len() - 1] == v);
    } else {
        lemma_count_pos_exists(s.drop_last(), v);
        let i = choose|i: int| 0 <= i < s.drop_last().len() && s.drop_last()[i] == v;
        assert(s[i] == v);
    }
}

/// A value counted exactly once sits in exactly one cell.
pub proof fn lemma_count_unique(s: Seq<u8>, v: u8, i: int, j: int)
    requires
        count_of(s, v) == 1,
        0 <= i < s.len(),
        0 <= j < s.len(),
        s[i] == v,
        s[j] == v,
    ensures
        i == j,
    decreases s.len(),
{
    if i != j {
        if i == s.len() - 1 {
            lemma_count_at_least_one(s.drop_last(), v, j);
        } else if j == s.len() - 1 {
            lemma_count_at_least_one(s.drop_last(), v, i);
        } else {
            if s.last() == v {
                assert(s.drop_last()[i] == v);
                lemma_count_at_least_one(s.drop_last(), v, i);
            } else {
                lemma_count_unique(s.drop_last(), v, i, j);
            }
        }
    }
}

/// Overwriting the cell at `i` with `a` removes one count of the old value
/// and adds one count of `a`.
pub proof fn lemma_count_update(s: Seq<u8>, i: int, a: u8, v: u8)
    requires
        0 <= i < s.len(),
    ensures
        count_of(s.update(i, a), v) == count_of(s, v) - (if s[i] == v {
            1int
        } else {
            0int
        }) + (if a == v {
            1int
        } else {
            0int
        }),
    decreases s.len(),
{
    if i == s.len() - 1 {
        assert(s.update(i, a).drop_last() =~= s.drop_last());
        assert(s.update(i, a).last() == a);
    } else {
        assert(s.update(i, a).drop_last() =~= s.drop_last().update(i, a));
        assert(s.update(i, a).last() == s.last());
        lemma_count_update(s.drop_last(), i, a, v);
    }
}

proof fn lemma_mismatch_le_len(s: Seq<u8>, n: int)
    ensures
        mismatch_count(s, n) <= s.len(),
    decreases s.len(),
{
    if s.len() > 0 {
        lemma_mismatch_le_len(s.drop_last(), n);
    }
}

proof fn lemma_mismatch_lt_if_blank(s: Seq<u8>, n: int, i: int)
    requires
        0 <= i < s.len(),
        s[i] == 0,
    ensures
        mismatch_count(s, n) <= s.len() - 1,
    decreases s.len(),
{
    if i == s.len() - 1 {
        lemma_mismatch_le_len(s.drop_last(), n);
    } else {
        lemma_mismatch_lt_if_blank(s.drop_last(), n, i);
    }
}

/// On a valid board the cost never reaches `size * size`: the blank cell is
/// never counted, so at most `size * size - 1` tiles can be misplaced.
pub proof fn lemma_cost_upper_bound(b: Board)
    requires
        b.wf(),
    ensures
        b.spec_cost() <= b.size * b.size - 1,
{
    assert(b.size * b.size >= 4) by (nonlinear_arith)
        requires
            b.size >= 2,
    ;
    assert(count_of(b.cells@, 0u8) == 1);
    lemma_count_pos_exists(b.cells@, 0u8);
    let i = choose|i: int| 0 <= i < b.cells@.len() && b.cells@[i] == 0u8;
    lemma_mismatch_lt_if_blank(b.cells@, b.size as int, i);
}

proof fn lemma_mismatch_zero_all_match(s: Seq<u8>, n: int)
    requires
        mismatch_count(s, n) == 0,
    ensures
        forall|i: int| 0 <= i < s.len() ==> s[i] == 0 || s[i] == goal_cell(n, i),
    decreases s.len(),
{
    if s.len() > 0 {
        lemma_mismatch_zero_all_match(s.drop_last(), n);
        assert forall|i: int| 0 <= i < s.len() implies s[i] == 0 || s[i] == goal_cell(n, i) by {
            if i < s.len() - 1 {
                assert(s.drop_last()[i] == s[i]);
            }
        }
    }
}

/// A valid board of cost zero is the goal board: every non-blank tile is in
/// its goal position, and the single blank is then forced into the last cell.
pub proof fn lemma_cost_zero_is_goal(b: Board)
    requires
        b.wf(),
        b.spec_cost() == 0,
    ensures
        b.cells@ == goal_seq(b.size as int),
{
    let s = b.cells@;
    let n = b.size as int;
    let nn = n * n;
    assert(n * n >= 4) by (nonlinear_arith)
        requires
            n >= 2,
    ;
    lemma_mismatch_zero_all_match(s, n);
    assert(count_of(s, 0u8) == 1);
    assert(s[nn - 1] == 0 || s[nn - 1] == goal_cell(n, nn - 1));
    assert(s[nn - 1] == 0);
    assert forall|i: int| 0 <= i < nn implies s[i] == goal_cell(n, i) by {
        if s[i] == 0 {
            lemma_count_unique(s, 0u8, i, nn - 1);
        }
    }
    assert(s =~= goal_seq(n));
}

/// A slide always moves the blank, so no cell sequence with a single blank
/// is one legal slide away from itself.
pub proof fn lemma_slide_moves(n: int, s: Seq<u8>)
    requires
        n >= 1,
        count_of(s, 0u8) == 1,
    ensures
        !is_slide(n, s, s),
{
    if is_slide(n, s, s) {
        let (i, j) = choose|i: int, j: int| slide_step(n, s, s, i, j);
        assert(slide_step(n, s, s, i, j));
        assert(s[j] == s.update(i, s[j]).update(j, 0u8)[j]);
        assert(s[j] == 0);
        assert(s[i] == 0);
        lemma_count_unique(s, 0u8, i, j);
    }
}

/// Swapping the blank with an adjacent cell leaves every value count intact,
/// so a slide keeps a valid board valid.
pub proof fn lemma_slide_preserves_wf(b: Board, r: Board, i: int, j: int)
    requires
        b.wf(),
        r.size == b.size,
        slide_step(b.size as int, b.cells@, r.cells@, i, j),
    ensures
        r.wf(),
{
    let s = b.cells@;
    let n = b.size as int;
    let s1 = s.update(i, s[j]);
    let s2 = s1.update(j, 0u8);
    assert(i != j);
    assert forall|v: u8| 0 <= v < r.size * r.size implies #[trigger] count_of(r.cells@, v)
        == 1 by {
        lemma_count_update(s, i, s[j], v);
        lemma_count_update(s1, j, 0u8, v);
        assert(s1[j] == s[j]);
        assert(s[i] == 0);
        assert(count_of(s, v) == 1);
    }
    assert(r.cells@.len() == r.size * r.size);
}

/// The slide operation itself: returns a copy of `board` with the blank moved
/// from cell `from` into the adjacent cell `to`.
pub fn apply_slide(board: &Board, from: usize, to: usize) -> (r: Board)
    requires
        board.wf(),
        board.cells@[from as int] == 0,
        adjacent(board.size as int, from as int, to as int),
    ensures
        r.size == board.size,
        r.cells@ == board.cells@.update(from as int, board.cells@[to as int]).update(
            to as int,
            0u8,
        ),
        slide_step(board.size as int, board.cells@, r.cells@, from as int, to as int),
        is_slide(board.size as int, board.cells@, r.cells@),
        r.wf(),
{
    let mut cells = board.cells.clone();
    let moved = cells[to];
    cells[from] = moved;
    cells[to] = 0;
    let r = Board { size: board.size, cells };
    proof {
        assert(slide_step(
            board.size as int,
            board.cells@,
            r.cells@,
            from as int,
            to as int,
        ));
        lemma_slide_preserves_wf(*board, r, from as int, to as int);
    }
    r
}

/// Locates the blank: on a valid board exactly one cell holds 0.
pub fn find_blank(board: &Board) -> (b: usize)
    requires
        board.wf(),
    ensures
        b < board.size * board.size,
        board.cells@[b as int] == 0,
{
    let len = board.cells.len();
    for i in 0..len
        invariant
            board.wf(),
            len == board.cells@.len(),
            forall|j: int| 0 <= j < i ==> board.cells@[j] != 0,
    {
        if board.cells[i] == 0 {
            return i;
        }
    }
    proof {
        assert(board.size * board.size >= 4) by (nonlinear_arith)
            requires
                board.size >= 2,
        ;
        assert(count_of(board.cells@, 0u8) == 1);
        lemma_count_pos_exists(board.cells@, 0u8);
        assert(false);
    }
    0
}

/// Why an externally supplied board was rejected.
#[derive(Debug, Clone, Copy, PartialEq, Eq, Structural)]
pub enum BoardError {
    /// The side length is not 2, 3 or 4.
    BadSize,
    /// The cell vector does not hold exactly `size * size` entries.
    WrongLength,
    /// The given value never occurs; `MissingValue(0)` means there is no blank.
    MissingValue(u8),
    /// The given value occurs more than once.
    DuplicateValue(u8),
}

/// The least value in `v .. nn` that does not occur exactly once in `s`.
pub open spec fn first_bad_value(s: Seq<u8>, nn: int, v: int) -> Option<u8>
    decreases nn - v,
{
    if v < 0 || v >= nn {
        None
    } else if count_of(s, v as u8) != 1 {
        Some(v as u8)
    } else {
        first_bad_value(s, nn, v + 1)
    }
}

impl Board {
    /// The exact verdict of validation: `None` for a valid board, otherwise
    /// the first reason found, checking size, then cell count, then each value
    /// in ascending order.
    pub open spec fn spec_validate(&self) -> Option<BoardError> {
        if !(2 <= self.size <= 4) {
            Some(BoardError::BadSize)
        } else if self.cells@.len() != self.size * self.size {
            Some(BoardError::WrongLength)
        } else {
            match first_bad_value(self.cells@, (self.size * self.size) as int, 0) {
                None => None,
                Some(v) => if count_of(self.cells@, v) == 0 {
                    Some(BoardError::MissingValue(v))
                } else {
                    Some(BoardError::DuplicateValue(v))
                },
            }
        }
    }
}

proof fn lemma_first_bad_none(s: Seq<u8>, nn: int, v: int)
    requires
        0 <= v,
        nn <= 256,
    ensures
        first_bad_value(s, nn, v) is None <==> (forall|u: int|
            v <= u < nn ==> #[trigger] count_of(s, u as u8) == 1),
    decreases nn - v,
{
    if v < nn {
        lemma_first_bad_none(s, nn, v + 1);
    }
}

/// Validation accepts exactly the valid boards.
pub proof fn lemma_validate_iff_wf(b: Board)
    ensures
        b.spec_validate() is None <==> b.wf(),
{
    if 2 <= b.size <= 4 && b.cells@.len() == b.size * b.size {
        assert(b.size * b.size <= 16) by (nonlinear_arith)
            requires
                b.size <= 4,
        ;
        let nn = (b.size * b.size) as int;
        lemma_first_bad_none(b.cells@, nn, 0);
        if forall|u: int| 0 <= u < nn ==> #[trigger] count_of(b.cells@, u as u8) == 1 {
            assert forall|v: u8| 0 <= v < b.size * b.size implies count_of(b.cells@, v)
                == 1 by {
                assert(count_of(b.cells@, (v as int) as u8) == 1);
            }
        }
        if b.wf() {
            assert forall|u: int| 0 <= u < nn implies #[trigger] count_of(b.cells@, u as u8)
                == 1 by {
                assert(0 <= (u as u8) < b.size * b.size);
            }
        }
    }
}

/// Checks an externally supplied board, reporting the first flaw found:
/// a bad side length, a wrong cell count, or the least value that is missing
/// or duplicated. Returns `Ok` exactly on valid boards.
pub fn validate(board: &Board) -> (r: Result<(), BoardError>)
    ensures
        r matches Ok(_) ==> board.spec_validate() is None && board.wf(),
        r matches Err(e) ==> board.spec_validate() == Some(e),
{
    let n = board.size;
    if n < 2 || n > 4 {
        return Err(BoardError::BadSize);
    }
    proof {
        assert(n * n <= 16) by (nonlinear_arith)
            requires
                n <= 4,
        ;
    }
    let nn = n * n;
    if board.cells.len() != nn {
        return Err(BoardError::WrongLength);
    }
    let s = Ghost(board.cells@);
    for v in 0..nn
        invariant
            n == board.size,
            2 <= n <= 4,
            nn == n * n,
            nn <= 16,
            s@ == board.cells@,
            s@.len() == nn,
            first_bad_value(s@, nn as int, 0) == first_bad_value(s@, nn as int, v as int),
    {
        let mut cnt: usize = 0;
        for i in 0..nn
            invariant
                n == board.size,
                nn <= 16,
                v < nn,
                s@ == board.cells@,
                s@.len() == nn,
                cnt == count_of(s@.take(i as int), v as u8),
                cnt <= i,
        {
            if board.cells[i] == v as u8 {
                cnt = cnt + 1;
            }
            proof {
                assert(s@.take(i + 1).drop_last() =~= s@.take(i as int));
                assert(s@.take(i + 1).last() == s@[i as int]);
            }
        }
        proof {
            assert(s@.take(nn as int) =~= s@);
        }
        if cnt == 0 {
            return Err(BoardError::MissingValue(v as u8));
        }
        if cnt > 1 {
            return Err(BoardError::DuplicateValue(v as u8));
        }
    }
    proof {
        lemma_validate_iff_wf(*board);
    }
    Ok(())
}

/// The flat index at which the goal arrangement holds the value `v`.
pub open spec fn goal_pos(n: int, v: u8) -> int {
    if v == 0 {
        n * n - 1
    } else {
        v - 1
    }
}

proof fn lemma_goal_cell_at(n: int, v: u8, i: int)
    requires
        2 <= n <= 4,
        0 <= v < n * n,
        0 <= i < n * n,
    ensures
        goal_cell(n, i) == v <==> i == goal_pos(n, v),
{
    assert(n * n <= 16) by (nonlinear_arith)
        requires
            2 <= n <= 4,
    ;
}

proof fn lemma_goal_count_prefix(n: int, v: u8, k: int)
    requires
        2 <= n <= 4,
        0 <= v < n * n,
        0 <= k <= n * n,
    ensures
        count_of(goal_seq(n).take(k), v) == if goal_pos(n, v) < k {
            1nat
        } else {
            0nat
        },
    decreases k,
{
    if k > 0 {
        lemma_goal_count_prefix(n, v, k - 1);
        assert(goal_seq(n).take(k).drop_last() =~= goal_seq(n).take(k - 1));
        assert(goal_seq(n).take(k).last() == goal_cell(n, k - 1));
        lemma_goal_cell_at(n, v, k - 1);
    }
}

/// The goal arrangement is itself a valid board's cell sequence: every value
/// occurs exactly once.
pub proof fn lemma_goal_seq_counts(n: int)
    requires
        2 <= n <= 4,
    ensures
        forall|v: u8| 0 <= v < n * n ==> #[trigger] count_of(goal_seq(n), v) == 1,
{
    assert(4 <= n * n <= 16) by (nonlinear_arith)
        requires
            2 <= n <= 4,
    ;
    assert forall|v: u8| 0 <= v < n * n implies #[trigger] count_of(goal_seq(n), v) == 1 by {
        lemma_goal_count_prefix(n, v, n * n);
        assert(goal_seq(n).take(n * n) =~= goal_seq(n));
    }
}

/// A board laid out as the goal arrangement is valid and scores zero — so
/// the solver's contract obliges it to report such a board solved at once,
/// with the one-element path holding the board itself.
pub proof fn lemma_goal_board_wf(b: Board)
    requires
        2 <= b.size <= 4,
        b.cells@ == goal_seq(b.size as int),
    ensures
        b.wf(),
        b.spec_cost() == 0,
{
    lemma_goal_seq_counts(b.size as int);
    lemma_goal_cost_zero(b.size as int);
}

/// Builds the goal board for the given side length.
pub fn goal_board(size: usize) -> (b: Board)
    requires
        2 <= size <= 4,
    ensures
        b.size == size,
        b.cells@ == goal_seq(size as int),
        b.wf(),
        b.spec_cost() == 0,
{
    proof {
        assert(4 <= size * size <= 16) by (nonlinear_arith)
            requires
                2 <= size <= 4,
        ;
    }
    let nn = size * size;
    let mut cells: Vec<u8> = Vec::new();
    for i in 0..nn
        invariant
            nn == size * size,
            nn <= 16,
            cells@.len() == i,
            forall|j: int| 0 <= j < i ==> cells@[j] == goal_cell(size as int, j),
    {
        let v: u8 = if i == nn - 1 {
            0
        } else {
            (i + 1) as u8
        };
        cells.push(v);
    }
    let b = Board { size, cells };
    proof {
        assert(b.cells@ =~= goal_seq(size as int));
        lemma_goal_seq_counts(size as int);
        lemma_goal_cost_zero(size as int);
    }
    b
}

/// The exact move list for a blank at flat index `blank`: the adjacent
/// cells in the fixed order down, left, up, right, each present exactly
/// when the grid has a cell in that direction.
pub open spec fn spec_legal_moves(n: usize, blank: usize) -> Seq<usize> {
    let s0 = if blank / n + 1 < n {
        Seq::<usize>::empty().push((blank + n) as usize)
    } else {
        Seq::<usize>::empty()
    };
    let s1 = if blank % n > 0 {
        s0.push((blank - 1) as usize)
    } else {
        s0
    };
    let s2 = if blank / n > 0 {
        s1.push((blank - n) as usize)
    } else {
        s1
    };
    if blank % n + 1 < n {
        s2.push((blank + 1) as usize)
    } else {
        s2
    }
}

/// Lists the flat indices the blank may slide into: up to four cells
/// adjacent to `blank`, pushed in the fixed order down, left, up, right,
/// bounds-checked against the grid. At least one move always exists, every
/// listed cell is adjacent, every adjacent cell is listed, and the order is
/// pinned by `spec_legal_moves` (the search's insertion-order tie-break
/// depends on it).
pub fn legal_moves(size: usize, blank: usize) -> (mv: Vec<usize>)
    requires
        2 <= size <= 4,
        blank < size * size,
    ensures
        mv@ == spec_legal_moves(size, blank),
        1 <= mv@.len() <= 4,
        forall|k: int|
            0 <= k < mv@.len() ==> adjacent(size as int, blank as int, #[trigger] mv@[k] as int),
        forall|j: int|
            #[trigger] adjacent(size as int, blank as int, j) ==> exists|k: int|
                0 <= k < mv@.len() && mv@[k] as int == j,
{
    let n = size;
    proof {
        assert(4 <= n * n <= 16) by (nonlinear_arith)
            requires
                2 <= n <= 4,
        ;
    }
    let row = blank / n;
    let col = blank % n;
    proof {
        vstd::arithmetic::div_mod::lemma_fundamental_div_mod(blank as int, n as int);
        vstd::arithmetic::div_mod::lemma_mod_division_less_than_divisor(blank as int, n as int);
        assert(row < n) by (nonlinear_arith)
            requires
                blank == n * row + col,
                0 <= col < n,
                blank < n * n,
                n >= 2,
        ;
    }
    let mut mv: Vec<usize> = Vec::new();
    let ghost mut down_at: int = -1;
    let ghost mut left_at: int = -1;
    let ghost mut up_at: int = -1;
    let ghost mut right_at: int = -1;
    if row + 1 < n {
        proof {
            assert(blank + n == n * (row + 1) + col && blank + n < n * n) by (nonlinear_arith)
                requires
                    blank == n * row + col,
                    0 <= col < n,
                    row + 1 < n,
            ;
            vstd::arithmetic::div_mod::lemma_fundamental_div_mod_converse_mod(
                blank + n,
                n as int,
                row + 1,
                col as int,
            );
        }
        mv.push(blank + n);
        proof {
            down_at = mv@.len() - 1;
        }
    }
    if col > 0 {
        proof {
            assert(blank - 1 == n * row + (col - 1)) by (nonlinear_arith)
                requires
                    blank == n * row + col,
                    col >= 1,
            ;
            vstd::arithmetic::div_mod::lemma_fundamental_div_mod_converse_div(
                blank - 1,
                n as int,
                row as int,
                col - 1,
            );
        }
        mv.push(blank - 1);
        proof {
            left_at = mv@.len() - 1;
        }
    }
    if row > 0 {
        proof {
            assert(blank >= n && blank - n == n * (row - 1) + col) by (nonlinear_arith)
                requires
                    blank == n * row + col,
                    0 <= col < n,
                    row >= 1,
                    n >= 1,
            ;
            vstd::arithmetic::div_mod::lemma_fundamental_div_mod_converse_mod(
                blank - n,
                n as int,
                row - 1,
                col as int,
            );
        }
        mv.push(blank - n);
        proof {
            up_at = mv@.len() - 1;
        }
    }
    if col + 1 < n {
        proof {
            assert(blank + 1 == n * row + (col + 1) && blank + 1 < n * n) by (nonlinear_arith)
                requires
                    blank == n * row + col,
                    0 <= col,
                    col + 1 < n,
                    row + 1 <= n,
            ;
            vstd::arithmetic::div_mod::lemma_fundamental_div_mod_converse_div(
                blank + 1,
                n as int,
                row as int,
                col + 1,
            );
        }
        mv.push(blank + 1);
        proof {
            right_at = mv@.len() - 1;
        }
    }
    proof {
        let bi = blank as int;
        let ni = n as int;
        let ri = row as int;
        let ci = col as int;
        assert forall|j: int| #[trigger] adjacent(size as int, blank as int, j) implies exists|
            k: int,
        | 0 <= k < mv@.len() && mv@[k] as int == j by {
            if j == bi + 1 {
                // A right neighbour exists only short of the row's end.
                if ci + 1 == ni {
                    assert(bi + 1 == (ri + 1) * ni + 0) by (nonlinear_arith)
                        requires
                            bi == ni * ri + ci,
                            ci + 1 == ni,
                    ;
                    vstd::arithmetic::div_mod::lemma_fundamental_div_mod_converse_div(
                        bi + 1,
                        ni,
                        ri + 1,
                        0,
                    );
                    assert(false);
                }
                assert(0 <= right_at < mv@.len() && mv@[right_at] as int == j);
            } else if j + 1 == bi {
                if ci == 0 {
                    assert(j == (ri - 1) * ni + (ni - 1)) by (nonlinear_arith)
                        requires
                            bi == ni * ri + ci,
                            ci == 0,
                            j + 1 == bi,
                    ;
                    vstd::arithmetic::div_mod::lemma_fundamental_div_mod_converse_div(
                        j,
                        ni,
                        ri - 1,
                        ni - 1,
                    );
                    assert(false);
                }
                assert(0 <= left_at < mv@.len() && mv@[left_at] as int == j);
            } else if j == bi + ni {
                // A lower neighbour exists only above the last row.
                assert(ri + 1 < ni) by (nonlinear_arith)
                    requires
                        bi == ni * ri + ci,
                        0 <= ci < ni,
                        bi + ni < ni * ni,
                        j == bi + ni,
                        ni >= 2,
                        ri >= 0,
                ;
                assert(0 <= down_at < mv@.len() && mv@[down_at] as int == j);
            } else {
                assert(j + ni == bi);
                assert(ri >= 1) by (nonlinear_arith)
                    requires
                        bi == ni * ri + ci,
                        0 <= ci < ni,
                        bi - ni >= 0,
                        ni >= 2,
                        ri >= 0,
                ;
                assert(0 <= up_at < mv@.len() && mv@[up_at] as int == j);
            }
        }
        assert(mv@ =~= spec_legal_moves(size, blank));
    }
    mv
}

/// The packed form of the first `k` cells of `s`: four bits per cell,
/// cell `i` at bit `4 * i`. Sixteen cells holding values below 16 fill a
/// `u64` exactly; `lemma_board_key_injective` shows that on valid boards
/// the key determines the full cell contents.
pub open spec fn board_key(s: Seq<u8>, k: int) -> u64
    decreases k,
{
    if k <= 0 {
        0u64
    } else {
        board_key(s, k - 1) | (((s[k - 1] as u64) & 0xf) << ((4 * (k - 1)) as u64))
    }
}

/// Packs a board's cells into the `u64` key `board_key`. The solver uses
/// the key only to recognise boards it has already expanded.
pub fn encode_board(board: &Board) -> (key: u64)
    requires
        board.cells@.len() <= 16,
    ensures
        key == board_key(board.cells@, board.cells@.len() as int),
{
    let len = board.cells.len();
    let mut key: u64 = 0;
    for i in 0..len
        invariant
            len == board.cells@.len(),
            len <= 16,
            key == board_key(board.cells@, i as int),
    {
        let v = board.cells[i];
        key = key | (((v as u64) & 0xf) << ((4 * i) as u64));
    }
    key
}

/// The number of cells of `s` holding a value below `m`.
pub open spec fn count_below(s: Seq<u8>, m: int) -> nat
    decreases m,
{
    if m <= 0 {
        0
    } else {
        count_below(s, m - 1) + count_of(s, (m - 1) as u8)
    }
}

proof fn lemma_count_below_last(s: Seq<u8>, m: int)
    requires
        s.len() > 0,
        0 <= m <= 256,
    ensures
        count_below(s, m) == count_below(s.drop_last(), m) + if (s.last() as int) < m {
            1nat
        } else {
            0nat
        },
    decreases m,
{
    if m > 0 {
        lemma_count_below_last(s, m - 1);
    }
}

proof fn lemma_count_below_le_len(s: Seq<u8>, m: int)
    requires
        0 <= m <= 256,
    ensures
        count_below(s, m) <= s.len(),
    decreases s.len(),
{
    if s.len() > 0 {
        lemma_count_below_last(s, m);
        lemma_count_below_le_len(s.drop_last(), m);
    } else {
        lemma_count_below_empty(s, m);
    }
}

proof fn lemma_count_below_empty(s: Seq<u8>, m: int)
    requires
        s.len() == 0,
    ensures
        count_below(s, m) == 0,
    decreases m,
{
    if m > 0 {
        lemma_count_below_empty(s, m - 1);
    }
}

proof fn lemma_count_below_missing(s: Seq<u8>, m: int, i: int)
    requires
        0 <= m <= 256,
        0 <= i < s.len(),
        s[i] as int >= m,
    ensures
        count_below(s, m) <= s.len() - 1,
    decreases s.len(),
{
    lemma_count_below_last(s, m);
    if i == s.len() - 1 {
        lemma_count_below_le_len(s.drop_last(), m);
    } else {
        lemma_count_below_missing(s.drop_last(), m, i);
    }
}

proof fn lemma_count_below_full(s: Seq<u8>, m: int, nn: int)
    requires
        0 <= m <= nn <= 256,
        forall|v: u8| 0 <= v < nn ==> #[trigger] count_of(s, v) == 1,
    ensures
        count_below(s, m) == m,
    decreases m,
{
    if m > 0 {
        lemma_count_below_full(s, m - 1, nn);
        assert(count_of(s, (m - 1) as u8) == 1);
    }
}

/// On a valid board every cell holds a value below `size * size`: the
/// `size * size` values that must each occur once already fill every cell.
pub proof fn lemma_wf_cells_in_range(b: Board)
    requires
        b.wf(),
    ensures
        forall|i: int| 0 <= i < b.cells@.len() ==> (#[trigger] b.cells@[i]) < b.size * b.size,
{
    let s = b.cells@;
    assert(4 <= b.size * b.size <= 16) by (nonlinear_arith)
        requires
            2 <= b.size <= 4,
    ;
    let nn = (b.size * b.size) as int;
    assert forall|i: int| 0 <= i < s.len() implies (#[trigger] s[i]) < b.size * b.size by {
        if s[i] as int >= nn {
            lemma_count_below_full(s, nn, nn);
            lemma_count_below_missing(s, nn, i);
        }
    }
}

proof fn lemma_board_key_bound(s: Seq<u8>, k: int)
    requires
        0 <= k <= 15,
    ensures
        board_key(s, k) < (1u64 << ((4 * k) as u64)),
    decreases k,
{
    if k == 0 {
        assert(0u64 < (1u64 << 0u64)) by (bit_vector);
    } else {
        lemma_board_key_bound(s, k - 1);
        let a = board_key(s, k - 1);
        let x = s[k - 1] as u64;
        let nib = x & 0xf;
        let sh = (4 * (k - 1)) as u64;
        assert(x & 0xf <= 0xf) by (bit_vector);
        assert((a | (nib << sh)) < (1u64 << (sh + 4))) by (bit_vector)
            requires
                a < (1u64 << sh),
                nib <= 0xf,
                sh <= 56,
        ;
        assert(sh + 4 == (4 * k) as u64);
    }
}

proof fn lemma_board_key_inj_prefix(s: Seq<u8>, t: Seq<u8>, k: int)
    requires
        0 <= k <= 16,
        k <= s.len(),
        k <= t.len(),
        board_key(s, k) == board_key(t, k),
    ensures
        forall|i: int|
            0 <= i < k ==> ((#[trigger] s[i] as u64) & 0xf) == ((#[trigger] t[i] as u64) & 0xf),
    decreases k,
{
    if k > 0 {
        let sh = (4 * (k - 1)) as u64;
        let a = board_key(s, k - 1);
        let b = board_key(t, k - 1);
        let v = (s[k - 1] as u64) & 0xf;
        let w = (t[k - 1] as u64) & 0xf;
        lemma_board_key_bound(s, k - 1);
        lemma_board_key_bound(t, k - 1);
        let x = s[k - 1] as u64;
        let y = t[k - 1] as u64;
        assert(x & 0xf <= 0xf) by (bit_vector);
        assert(y & 0xf <= 0xf) by (bit_vector);
        assert(a == b && v == w) by (bit_vector)
            requires
                (a | (v << sh)) == (b | (w << sh)),
                a < (1u64 << sh),
                b < (1u64 << sh),
                v <= 0xf,
                w <= 0xf,
                sh <= 60,
        ;
        lemma_board_key_inj_prefix(s, t, k - 1);
    }
}

/// The packed key identifies a valid board's full cell contents exactly:
/// two valid boards of one size share a key only if they are the same
/// board. So pruning by key — as the solver's visited set does — compares
/// full board content, never anything weaker.
pub proof fn lemma_board_key_injective(a: Board, b: Board)
    requires
        a.wf(),
        b.wf(),
        a.size == b.size,
        board_key(a.cells@, a.cells@.len() as int) == board_key(b.cells@, b.cells@.len() as int),
    ensures
        a.cells@ == b.cells@,
{
    let s = a.cells@;
    let t = b.cells@;
    assert(4 <= a.size * a.size <= 16) by (nonlinear_arith)
        requires
            2 <= a.size <= 4,
    ;
    let nn = (a.size * a.size) as int;
    lemma_wf_cells_in_range(a);
    lemma_wf_cells_in_range(b);
    lemma_board_key_inj_prefix(s, t, nn);
    assert forall|i: int| 0 <= i < nn implies s[i] == t[i] by {
        let x = s[i] as u64;
        let y = t[i] as u64;
        assert(x == y) by (bit_vector)
            requires
                (x & 0xf) == (y & 0xf),
                x < 16,
                y < 16,
        ;
    }
    assert(s =~= t);
}

proof fn lemma_goal_prefix_cost(n: int, k: int)
    requires
        1 <= n,
        0 <= k <= n * n,
    ensures
        mismatch_count(goal_seq(n).take(k), n) == 0,
    decreases k,
{
    if k > 0 {
        lemma_goal_prefix_cost(n, k - 1);
        assert(goal_seq(n).take(k).drop_last() =~= goal_seq(n).take(k - 1));
        assert(goal_seq(n).take(k).last() == goal_cell(n, k - 1));
    }
}

} // verus!
