use vstd::prelude::*;

use crate::board::{
    adjacent, apply_slide, calculate_cost, count_of, goal_seq, is_slide, slide_step, validate,
    Board, BoardError,
};
use vstd::arithmetic::power::pow;

use std::collections::HashSet;

verus! {

broadcast use vstd::std_specs::hash::group_hash_axioms;


/// One explored state of the search tree. Nodes live in an arena (a plain
/// vector); `parent` is the arena index of the node whose board this one was
/// reached from, or `None` for the root.
#[derive(Debug)]
pub struct Node {
    pub parent: Option<usize>,
    pub board: Board,
    pub blank: usize,
    pub cost: u32,
    pub depth: u32,
}

impl Node {
    /// Internal consistency: the board is valid, `blank` really names the
    /// blank cell, and `cost` is the board's heuristic score.
    pub open spec fn wf(&self) -> bool {
        &&& self.board.wf()
        &&& (self.blank as int) < self.board.size * self.board.size
        &&& self.board.cells@[self.blank as int] == 0
        &&& self.cost == self.board.spec_cost()
    }
}

/// Expands a node: slides the blank of `parent`'s board into the adjacent
/// cell `new_blank` and wraps the resulting board in a child node one level
/// deeper, remembering `parent_index` as its origin.
pub fn new_node(parent: &Node, parent_index: usize, new_blank: usize) -> (child: Node)
    requires
        parent.wf(),
        adjacent(parent.board.size as int, parent.blank as int, new_blank as int),
        parent.depth < u32::MAX,
    ensures
        child.wf(),
        child.board.size == parent.board.size,
        child.parent == Some(parent_index),
        child.blank == new_blank,
        child.depth == parent.depth + 1,
        slide_step(
            parent.board.size as int,
            parent.board.cells@,
            child.board.cells@,
            parent.blank as int,
            new_blank as int,
        ),
        is_slide(parent.board.size as int, parent.board.cells@, child.board.cells@),
{
    let board = apply_slide(&parent.board, parent.blank, new_blank);
    let cost = calculate_cost(&board);
    Node {
        parent: Some(parent_index),
        board,
        blank: new_blank,
        cost,
        depth: parent.depth + 1,
    }
}

/// A pending entry of the frontier: the arena index of a not-yet-expanded
/// node together with a copy of its cost and depth.
#[derive(Debug, Clone, Copy)]
pub struct Entry {
    pub idx: usize,
    pub cost: u32,
    pub depth: u32,
}

/// The frontier's strict priority order: lower cost wins, and among equal
/// costs the shallower node wins.
pub open spec fn entry_lt(a: Entry, b: Entry) -> bool {
    a.cost < b.cost || (a.cost == b.cost && a.depth < b.depth)
}

/// Picks the next node to expand: the first entry that no other entry
/// strictly beats under `entry_lt`. Ties beyond cost and depth fall to the
/// earliest-inserted entry, so extraction is fully deterministic.
pub fn select_min(frontier: &Vec<Entry>) -> (j: usize)
    requires
        frontier@.len() > 0,
    ensures
        j < frontier@.len(),
        forall|k: int|
            0 <= k < frontier@.len() ==> !entry_lt(#[trigger] frontier@[k], frontier@[j as int]),
        forall|k: int| 0 <= k < j ==> entry_lt(frontier@[j as int], #[trigger] frontier@[k]),
{
    let mut best: usize = 0;
    let len = frontier.len();
    for k in 1..len
        invariant
            len == frontier@.len(),
            best < k <= len,
            forall|t: int| 0 <= t < k ==> !entry_lt(#[trigger] frontier@[t], frontier@[best as int]),
            forall|t: int| 0 <= t < best ==> entry_lt(frontier@[best as int], #[trigger] frontier@[t]),
    {
        let cand = frontier[k];
        let cur = frontier[best];
        if cand.cost < cur.cost || (cand.cost == cur.cost && cand.depth < cur.depth) {
            best = k;
        }
    }
    best
}

/// The termination measure of one frontier entry: nodes may sit at depth 0
/// up to 32, and a deeper entry weighs a fifth of its parent, so replacing an
/// expanded entry by its at most four children shrinks the total.
pub open spec fn weight(depth: nat) -> nat {
    pow(5, if depth <= 33 {
        (33 - depth) as nat
    } else {
        0nat
    }) as nat
}

/// The termination measure of the whole frontier: the sum of its entries'
/// weights.
pub open spec fn pot(f: Seq<Entry>) -> nat
    decreases f.len(),
{
    if f.len() == 0 {
        0
    } else {
        pot(f.drop_last()) + weight(f.last().depth as nat)
    }
}

/// An entry's weight is five times the weight of its children's entries.
pub proof fn lemma_weight_step(d: nat)
    requires
        d <= 32,
    ensures
        weight(d) == 5 * weight(d + 1),
        weight(d + 1) >= 1,
{
    let e = (33 - d) as nat;
    vstd::arithmetic::power::lemma_pow_adds(5, 1, (e - 1) as nat);
    vstd::arithmetic::power::lemma_pow1(5);
    assert(pow(5, e) == 5 * pow(5, (e - 1) as nat));
    vstd::arithmetic::power::lemma_pow_positive(5, (e - 1) as nat);
}

/// Every entry weighs at least one, so dropping an entry from the frontier
/// strictly shrinks the measure.
pub proof fn lemma_weight_pos(d: nat)
    ensures
        weight(d) >= 1,
{
    vstd::arithmetic::power::lemma_pow_positive(
        5,
        if d <= 33 {
            (33 - d) as nat
        } else {
            0nat
        },
    );
}

/// Appending an entry adds its weight to the measure.
pub proof fn lemma_pot_push(f: Seq<Entry>, e: Entry)
    ensures
        pot(f.push(e)) == pot(f) + weight(e.depth as nat),
{
    assert(f.push(e).drop_last() =~= f);
    assert(f.push(e).last() == e);
}

/// Removing the entry at `j` subtracts its weight from the measure.
pub proof fn lemma_pot_remove(f: Seq<Entry>, j: int)
    requires
        0 <= j < f.len(),
    ensures
        pot(f.remove(j)) + weight(f[j].depth as nat) == pot(f),
    decreases f.len(),
{
    if j == f.len() - 1 {
        assert(f.remove(j) =~= f.drop_last());
    } else {
        assert(f.remove(j).drop_last() =~= f.drop_last().remove(j));
        assert(f.remove(j).last() == f.last());
        lemma_pot_remove(f.drop_last(), j);
    }
}

/// The node at `i` is correctly linked to its parent: the parent sits
/// earlier in the arena, the node is one level deeper, and its board arises
/// from the parent's by one legal slide.
pub open spec fn parent_link_ok(arena: Seq<Node>, i: int, n: int) -> bool {
    arena[i].parent matches Some(p) ==> {
        &&& (p as int) < i
        &&& 0 <= (p as int)
        &&& arena[i].depth == arena[p as int].depth + 1
        &&& is_slide(n, arena[p as int].board.cells@, arena[i].board.cells@)
    }
}

/// A well-formed search arena over boards of side `n`, rooted at the board
/// whose cells are `start`: one root at index 0, every node internally
/// consistent, and every non-root node linked to an earlier parent by one
/// slide.
pub open spec fn arena_ok(arena: Seq<Node>, n: int, start: Seq<u8>) -> bool {
    &&& arena.len() >= 1
    &&& arena[0].parent is None
    &&& arena[0].board.cells@ == start
    &&& arena[0].depth == 0
    &&& forall|i: int| 0 <= i < arena.len() ==> (#[trigger] arena[i]).wf()
    &&& forall|i: int| 0 <= i < arena.len() ==> (#[trigger] arena[i]).board.size == n
    &&& forall|i: int| 1 <= i < arena.len() ==> (#[trigger] arena[i]).parent is Some
    &&& forall|i: int| 0 <= i < arena.len() ==> parent_link_ok(arena, i, n)
}

/// The arena index reached from `t` by walking `back` parent links (it
/// stops moving at a node without a parent).
pub open spec fn ancestor(arena: Seq<Node>, t: int, back: nat) -> int
    decreases back,
{
    if back == 0 {
        t
    } else {
        let q = ancestor(arena, t, (back - 1) as nat);
        if 0 <= q < arena.len() && arena[q].parent is Some {
            arena[q].parent->0 as int
        } else {
            q
        }
    }
}

/// Walks the parent chain of the node at `t` back to the root and returns
/// exactly the boards of that chain — element `i` of the result is the
/// board of the ancestor `path.len() - 1 - i` links above `t` — reordered
/// from the root's board to `t`'s board, one legal slide apart at each step.
pub fn reconstruct_path(arena: &Vec<Node>, t: usize) -> (path: Vec<Board>)
    requires
        arena_ok(arena@, arena@[0].board.size as int, arena@[0].board.cells@),
        t < arena@.len(),
    ensures
        path@.len() == arena@[t as int].depth + 1,
        path@[0].size == arena@[0].board.size,
        path@[0].cells@ == arena@[0].board.cells@,
        path@[path@.len() - 1].cells@ == arena@[t as int].board.cells@,
        forall|i: int|
            0 <= i < path@.len() ==> (#[trigger] path@[i]).wf() && path@[i].size
                == arena@[0].board.size,
        forall|i: int|
            0 <= i < path@.len() - 1 ==> is_slide(
                arena@[0].board.size as int,
                path@[i].cells@,
                #[trigger] path@[i + 1].cells@,
            ),
        forall|i: int|
            0 <= i < path@.len() ==> (#[trigger] path@[i]).cells@ == arena@[ancestor(
                arena@,
                t as int,
                (path@.len() - 1 - i) as nat,
            )].board.cells@,
{
    let ghost n = arena@[0].board.size as int;
    let mut rev: Vec<Board> = Vec::new();
    let mut cur = t;
    rev.push(arena[cur].board.clone());
    loop
        invariant
            arena_ok(arena@, n, arena@[0].board.cells@),
            n == arena@[0].board.size as int,
            t < arena@.len(),
            cur < arena@.len(),
            rev@.len() >= 1,
            rev@.len() == arena@[t as int].depth - arena@[cur as int].depth + 1,
            cur as int == ancestor(arena@, t as int, (rev@.len() - 1) as nat),
            forall|i: int|
                0 <= i < rev@.len() ==> (#[trigger] rev@[i]).cells@ == arena@[ancestor(
                    arena@,
                    t as int,
                    i as nat,
                )].board.cells@,
            rev@[0].cells@ == arena@[t as int].board.cells@,
            rev@[rev@.len() - 1].cells@ == arena@[cur as int].board.cells@,
            forall|i: int|
                0 <= i < rev@.len() ==> (#[trigger] rev@[i]).wf() && rev@[i].size
                    == arena@[0].board.size,
            forall|i: int|
                0 <= i < rev@.len() - 1 ==> is_slide(
                    n,
                    rev@[i + 1].cells@,
                    #[trigger] rev@[i].cells@,
                ),
        ensures
            cur == 0,
            rev@.len() == arena@[t as int].depth + 1,
            forall|i: int|
                0 <= i < rev@.len() ==> (#[trigger] rev@[i]).cells@ == arena@[ancestor(
                    arena@,
                    t as int,
                    i as nat,
                )].board.cells@,
            rev@[0].cells@ == arena@[t as int].board.cells@,
            rev@[rev@.len() - 1].cells@ == arena@[0].board.cells@,
            forall|i: int|
                0 <= i < rev@.len() ==> (#[trigger] rev@[i]).wf() && rev@[i].size
                    == arena@[0].board.size,
            forall|i: int|
                0 <= i < rev@.len() - 1 ==> is_slide(
                    n,
                    rev@[i + 1].cells@,
                    #[trigger] rev@[i].cells@,
                ),
        decreases arena@[cur as int].depth,
    {
        let parent = arena[cur].parent;
        match parent {
            None => {
                proof {
                    if cur != 0 {
                        assert(arena@[cur as int].parent is Some);
                    }
                }
                break ;
            },
            Some(p) => {
                proof {
                    assert(parent_link_ok(arena@, cur as int, n));
                }
                let ghost back0 = (rev@.len() - 1) as nat;
                let ghost cur0 = cur;
                cur = p;
                let ghost prev = rev@;
                rev.push(arena[cur].board.clone());
                proof {
                    assert(forall|i: int| 0 <= i < prev.len() ==> rev@[i] == prev[i]);
                    assert(rev@[rev@.len() - 1].cells@ == arena@[cur as int].board.cells@);
                    assert(ancestor(arena@, t as int, back0) == cur0 as int);
                    assert(ancestor(arena@, t as int, back0 + 1) == cur as int);
                    assert((rev@.len() - 1) as nat == back0 + 1);
                }
            },
        }
    }
    let len = rev.len();
    let mut path: Vec<Board> = Vec::new();
    for i in 0..len
        invariant
            len == rev@.len(),
            len >= 1,
            path@.len() == i,
            forall|j: int|
                0 <= j < i ==> (#[trigger] path@[j]).size == rev@[len - 1 - j].size && path@[j].cells@
                    == rev@[len - 1 - j].cells@,
            forall|j: int| 0 <= j < i ==> (#[trigger] path@[j]).wf(),
            forall|j: int| 0 <= j < rev@.len() ==> (#[trigger] rev@[j]).wf(),
    {
        path.push(rev[len - 1 - i].clone());
        proof {
            let j = i as int;
            assert(path@[j].cells@ == rev@[len - 1 - j].cells@);
            assert(path@[j].size == rev@[len - 1 - j].size);
            assert(rev@[len - 1 - j].wf());
            assert(path@[j].wf());
        }
    }
    proof {
        assert forall|i: int| 0 <= i < path@.len() - 1 implies is_slide(
            n,
            path@[i].cells@,
            #[trigger] path@[i + 1].cells@,
        ) by {
            let a = len - 1 - i;
            assert(is_slide(n, rev@[(a - 1) + 1].cells@, rev@[a - 1].cells@));
        }
        assert forall|i: int| 0 <= i < path@.len() implies (#[trigger] path@[i]).cells@
            == arena@[ancestor(arena@, t as int, (path@.len() - 1 - i) as nat)].board.cells@ by {
            let k2 = path@.len() - 1 - i;
            assert(rev@[k2].cells@ == arena@[ancestor(arena@, t as int, k2 as nat)].board.cells@);
        }
    }
    path
}

/// The outcome of solving a board.
#[derive(Debug)]
pub enum SolveResult {
    /// The ordered board snapshots from the input to the goal, one legal
    /// slide apart.
    Solved(Vec<Board>),
    /// The search popped a node beyond the depth ceiling, or exhausted its
    /// frontier, before reaching the goal. Not a proof of unsolvability.
    BoundExceeded,
    /// The input board was rejected before any search started.
    InvalidBoard(BoardError),
}

/// What a reported solution promises: it starts at the input board, ends at
/// the goal board, every snapshot is a valid board of the input's size, each
/// step is one legal slide, and the path stays within the depth ceiling.
pub open spec fn solved_path_ok(p: Seq<Board>, input: Board) -> bool {
    let n = input.size as int;
    &&& 1 <= p.len() <= 33
    &&& p[0].size == input.size
    &&& p[0].cells@ == input.cells@
    &&& p[p.len() - 1].cells@ == goal_seq(n)
    &&& forall|i: int| 0 <= i < p.len() ==> (#[trigger] p[i]).wf() && p[i].size == input.size
    &&& forall|i: int|
        0 <= i < p.len() - 1 ==> is_slide(n, p[i].cells@, #[trigger] p[i + 1].cells@)
}

/// Best-first search for a slide sequence from `board` to the goal.
///
/// A malformed board is rejected as `InvalidBoard` with the exact reason
/// that `validate` reports. On a valid board the search expands the
/// lowest-cost pending node first (ties: shallower node, then
/// earliest-inserted; children are pushed in the order down, left, up,
/// right) and stops with `Solved` when a cost-0 node is popped, or with
/// `BoundExceeded` when a node deeper than 31 moves is popped first. Two
/// successes are guaranteed outright: the goal board itself yields the
/// one-board path, and a board one legal slide short of the goal yields a
/// two-board path.
#[verifier::loop_isolation(false)]
pub fn solve(board: &Board) -> (r: SolveResult)
    ensures
        r matches SolveResult::InvalidBoard(e) ==> board.spec_validate() == Some(e),
        !board.wf() ==> r matches SolveResult::InvalidBoard(_),
        board.wf() ==> !(r matches SolveResult::InvalidBoard(_)),
        r matches SolveResult::Solved(p) ==> board.wf() && solved_path_ok(p@, *board),
        board.wf() && board.spec_cost() == 0 ==> (r matches SolveResult::Solved(p) && p@.len()
            == 1),
        board.wf() && is_slide(board.size as int, board.cells@, goal_seq(board.size as int))
            ==> (r matches SolveResult::Solved(p) && p@.len() == 2),
{
    match validate(board) {
        Err(e) => {
            proof {
                crate::board::lemma_validate_iff_wf(*board);
            }
            return SolveResult::InvalidBoard(e);
        },
        Ok(()) => {},
    }
    let ghost hyp = board.wf() && is_slide(
        board.size as int,
        board.cells@,
        goal_seq(board.size as int),
    );
    let n = board.size;
    let cost0 = calculate_cost(board);
    if cost0 == 0 {
        let mut p: Vec<Board> = Vec::new();
        p.push(board.clone());
        proof {
            crate::board::lemma_cost_zero_is_goal(*board);
            if hyp {
                assert(board.size * board.size >= 4) by (nonlinear_arith)
                    requires
                        board.size >= 2,
                ;
                crate::board::lemma_goal_seq_counts(board.size as int);
                crate::board::lemma_slide_moves(
                    board.size as int,
                    goal_seq(board.size as int),
                );
                assert(false);
            }
        }
        return SolveResult::Solved(p);
    }
    let blank0 = crate::board::find_blank(board);
    let root = Node {
        parent: None,
        board: board.clone(),
        blank: blank0,
        cost: cost0,
        depth: 0,
    };
    let mut arena: Vec<Node> = Vec::new();
    arena.push(root);
    let mut frontier: Vec<Entry> = Vec::new();
    frontier.push(Entry { idx: 0, cost: cost0, depth: 0 });
    // The visited set: packed boards already expanded once. On valid boards
    // the packed key determines the full cell contents (see
    // crate::board::lemma_board_key_injective), so pruning by key compares
    // whole boards. Skipping a repeat expansion only discards children that
    // duplicate, at greater depth and later insertion, children the first
    // expansion already produced, so it never changes which node is popped
    // first.
    let mut seen: HashSet<u64> = HashSet::new();
    // Witnesses for the one-slide success guarantee: when the input is one
    // slide short of the goal, `istar` is its blank cell and `jstar` the
    // cell whose slide completes it.
    let ghost mut istar: int = 0;
    let ghost mut jstar: int = 0;
    proof {
        assert(4 <= n * n <= 16) by (nonlinear_arith)
            requires
                2 <= n <= 4,
        ;
        if hyp {
            let (si, sj) = choose|si: int, sj: int|
                slide_step(n as int, board.cells@, goal_seq(n as int), si, sj);
            istar = si;
            jstar = sj;
            assert(count_of(board.cells@, 0u8) == 1);
            crate::board::lemma_count_unique(board.cells@, 0u8, istar, blank0 as int);
        }
    }
    while frontier.len() > 0
        invariant
            arena_ok(arena@, n as int, board.cells@),
            forall|k: int|
                0 <= k < frontier@.len() ==> {
                    let e = #[trigger] frontier@[k];
                    &&& (e.idx as int) < arena@.len()
                    &&& e.cost == arena@[e.idx as int].cost
                    &&& e.depth == arena@[e.idx as int].depth
                    &&& e.depth <= 32
                },
            // Under the one-slide hypothesis the search can only be in one
            // of two states: about to expand the untouched root, or holding
            // depth-1 children among which a goal board (cost 0) sits, so
            // the next extraction must pick a cost-0, depth-1 node.
            hyp ==> ({
                ||| (frontier@.len() == 1 && frontier@[0].idx == 0 && frontier@[0].cost != 0
                    && frontier@[0].depth == 0 && seen@ == Set::<u64>::empty() && arena@.len()
                    == 1)
                ||| ((forall|k2: int|
                    0 <= k2 < frontier@.len() ==> (#[trigger] frontier@[k2]).depth == 1)
                    && (exists|k2: int|
                    0 <= k2 < frontier@.len() && (#[trigger] frontier@[k2]).cost == 0))
            }),
        decreases pot(frontier@),
    {
        let ghost f0 = frontier@;
        let j = select_min(&frontier);
        let e = frontier.remove(j);
        proof {
            lemma_pot_remove(f0, j as int);
        }
        if e.cost == 0 {
            let path = reconstruct_path(&arena, e.idx);
            proof {
                crate::board::lemma_cost_zero_is_goal(arena@[e.idx as int].board);
                if hyp {
                    assert(e == f0[j as int]);
                    assert(e.depth == 1);
                }
            }
            return SolveResult::Solved(path);
        }
        if e.depth > 31 {
            proof {
                if hyp {
                    assert(e == f0[j as int]);
                    assert(false);
                }
            }
            return SolveResult::BoundExceeded;
        }
        let key = crate::board::encode_board(&arena[e.idx].board);
        if seen.contains(&key) {
            proof {
                lemma_weight_pos(e.depth as nat);
                if hyp {
                    assert(e == f0[j as int]);
                    if exists|k2: int|
                        0 <= k2 < f0.len() && (#[trigger] f0[k2]).cost == 0 {
                        let k0 = choose|k2: int|
                            0 <= k2 < f0.len() && (#[trigger] f0[k2]).cost == 0;
                        assert(entry_lt(f0[k0], f0[j as int]));
                        assert(false);
                    }
                    assert(seen@ == Set::<u64>::empty());
                    assert(false);
                }
            }
            continue ;
        }
        seen.insert(key);
        let blank = arena[e.idx].blank;
        let mv = crate::board::legal_moves(n, blank);
        let ghost node0 = arena@[e.idx as int];
        let ghost pot_mid = pot(frontier@);
        let ghost w = weight((e.depth + 1) as nat);
        let mlen = mv.len();
        let ghost mut kstar: int = 0;
        proof {
            assert(pot(frontier@) == pot_mid + 0 * w);
            if hyp {
                assert(e == f0[j as int]);
                if exists|k2: int| 0 <= k2 < f0.len() && (#[trigger] f0[k2]).cost == 0 {
                    let k0 = choose|k2: int|
                        0 <= k2 < f0.len() && (#[trigger] f0[k2]).cost == 0;
                    assert(entry_lt(f0[k0], f0[j as int]));
                    assert(false);
                }
                assert(e.idx == 0 && e.depth == 0 && arena@.len() == 1);
                assert(arena@[0].board.cells@ == board.cells@);
                assert(arena@[0].board.cells@[arena@[0].blank as int] == 0);
                crate::board::lemma_count_unique(
                    board.cells@,
                    0u8,
                    istar,
                    arena@[0].blank as int,
                );
                assert(istar == blank as int);
                assert(adjacent(n as int, blank as int, jstar));
                assert(exists|k2: int| 0 <= k2 < mv@.len() && mv@[k2] as int == jstar);
                kstar = choose|k2: int| 0 <= k2 < mv@.len() && mv@[k2] as int == jstar;
            }
        }
        for k in 0..mlen
            invariant
                arena_ok(arena@, n as int, board.cells@),
                forall|t: int|
                    0 <= t < frontier@.len() ==> {
                        let en = #[trigger] frontier@[t];
                        &&& (en.idx as int) < arena@.len()
                        &&& en.cost == arena@[en.idx as int].cost
                        &&& en.depth == arena@[en.idx as int].depth
                        &&& en.depth <= 32
                    },
                (e.idx as int) < arena@.len(),
                arena@[e.idx as int] == node0,
                pot(frontier@) == pot_mid + k * w,
                hyp ==> (forall|t2: int|
                    0 <= t2 < frontier@.len() ==> (#[trigger] frontier@[t2]).depth == 1),
                hyp ==> ((k <= kstar && 0 <= kstar < mv@.len() && mv@[kstar] as int == jstar)
                    || (exists|t2: int|
                    0 <= t2 < frontier@.len() && (#[trigger] frontier@[t2]).cost == 0)),
        {
            let nb = mv[k];
            let child = new_node(&arena[e.idx], e.idx, nb);
            let ccost = child.cost;
            let cdepth = child.depth;
            let idx = arena.len();
            let ghost a0 = arena@;
            arena.push(child);
            let ghost f1 = frontier@;
            frontier.push(Entry { idx, cost: ccost, depth: cdepth });
            proof {
                lemma_pot_push(f1, Entry { idx, cost: ccost, depth: cdepth });
                assert((k + 1) * w == k * w + w) by (nonlinear_arith);
                assert(forall|i: int| 0 <= i < a0.len() ==> arena@[i] == a0[i]);
                assert(parent_link_ok(arena@, idx as int, n as int));
                assert forall|i: int| 0 <= i < arena@.len() implies parent_link_ok(
                    arena@,
                    i,
                    n as int,
                ) by {
                    if i < idx {
                        assert(parent_link_ok(a0, i, n as int));
                    }
                }
                assert(forall|t2: int| 0 <= t2 < f1.len() ==> frontier@[t2] == f1[t2]);
                if hyp {
                    if k == kstar {
                        assert(node0.board.cells@ == board.cells@);
                        assert(node0.blank as int == istar);
                        assert(nb as int == jstar);
                        assert(slide_step(
                            n as int,
                            board.cells@,
                            goal_seq(n as int),
                            istar,
                            jstar,
                        ));
                        assert(arena@[idx as int].board.cells@ == goal_seq(n as int));
                        crate::board::lemma_goal_cost_zero(n as int);
                        assert(frontier@[frontier@.len() - 1].cost == 0);
                    }
                }
            }
        }
        proof {
            lemma_weight_step(e.depth as nat);
            assert(mlen * w <= 4 * w) by (nonlinear_arith)
                requires
                    mlen <= 4,
                    w >= 0,
            ;
            assert(pot(frontier@) < pot(f0));
            if hyp {
                assert(exists|k2: int|
                    0 <= k2 < frontier@.len() && (#[trigger] frontier@[k2]).cost == 0);
            }
        }
    }
    SolveResult::BoundExceeded
}

} // verus!
