use vstd::prelude::*;

use crate::board::{
    apply_slide, find_blank, goal_board, goal_seq, is_slide, legal_moves, Board,
};
use rand::Rng;

verus! {

/// The boards reachable from `from` in exactly `k` legal slides on an
/// `n` x `n` grid.
pub open spec fn reachable_in(n: int, from: Seq<u8>, to: Seq<u8>, k: nat) -> bool
    decreases k,
{
    if k == 0 {
        from == to
    } else {
        exists|m: Seq<u8>| reachable_in(n, from, m, (k - 1) as nat) && is_slide(n, m, to)
    }
}

/// Relies on rand::Rng::gen_range on a usize range: returns a uniformly
/// drawn value in [lo, hi); it panics only when the range is empty, which
/// the precondition rules out.
#[verifier::external_body]
fn random_range(lo: usize, hi: usize) -> (r: usize)
    requires
        lo < hi,
    ensures
        lo <= r < hi,
{
    rand::thread_rng().gen_range(lo..hi)
}

/// Scrambles a fresh board: starts from the goal board of the chosen size
/// and applies a random number (between 2 and 10) of legal slides, each
/// picked uniformly among the blank's currently available directions. The
/// result is always a valid board and always reachable from the goal by
/// legal slides — hence solvable. The slide count is kept well below the
/// search's depth ceiling: the greedy best-first solver gives up once it
/// pops a node deeper than the ceiling, and scrambles much farther from the
/// goal would make that give-up likely.
pub fn generate(size: usize) -> (b: Board)
    requires
        2 <= size <= 4,
    ensures
        b.size == size,
        b.wf(),
        exists|k: nat|
            2 <= k <= 10 && reachable_in(size as int, goal_seq(size as int), b.cells@, k),
{
    let mut b = goal_board(size);
    let ghost mut steps: nat = 0nat;
    proof {
        assert(reachable_in(size as int, goal_seq(size as int), b.cells@, 0nat));
    }
    let count = random_range(3, 12);
    let mut t: usize = 1;
    while t < count
        invariant
            b.size == size,
            b.wf(),
            t <= count,
            steps == t - 1,
            reachable_in(size as int, goal_seq(size as int), b.cells@, steps),
        decreases count - t,
    {
        let blank = find_blank(&b);
        let mv = legal_moves(size, blank);
        let m = random_range(0, mv.len());
        let nb = mv[m];
        let ghost prev = b.cells@;
        b = apply_slide(&b, blank, nb);
        proof {
            steps = steps + 1;
            assert(reachable_in(size as int, goal_seq(size as int), prev, (steps - 1) as nat));
            assert(is_slide(size as int, prev, b.cells@));
            assert(reachable_in(size as int, goal_seq(size as int), b.cells@, steps));
        }
        t = t + 1;
    }
    b
}

} // verus!
