//! The search frontier: a priority queue of cells, each with a score, from
//! which the cell with the least score leaves first.

use vstd::prelude::*;
use std::cmp::Reverse;
use std::hash::RandomState;
use priority_queue::PriorityQueue;
use crate::cell_set::Cell;

verus! {

/// `priority_queue::PriorityQueue`, a queue that holds each item once, with
/// a priority, and hands out the item of greatest priority.
#[verifier::external_type_specification]
#[verifier::external_body]
#[verifier::reject_recursive_types(I)]
#[verifier::reject_recursive_types(P)]
#[verifier::reject_recursive_types(H)]
pub struct ExPriorityQueue<I, P, H>(PriorityQueue<I, P, H>);

/// `std::cmp::Reverse`, which orders its content the other way round.
#[verifier::external_type_specification]
#[verifier::external_body]
#[verifier::reject_recursive_types(T)]
pub struct ExReverse<T>(Reverse<T>);

/// The frontier of a search: cells that wait, each with its score.
pub type Frontier = PriorityQueue<Cell, Reverse<u64>, RandomState>;

/// The cells that wait in a frontier, each with its score.
pub uninterp spec fn frontier_scores(
    queue: PriorityQueue<Cell, Reverse<u64>, RandomState>,
) -> Map<Cell, u64>;

/// `PriorityQueue::new`: a queue that holds nothing.
#[verifier::external_body]
pub(crate) fn frontier_new() -> (fresh: PriorityQueue<Cell, Reverse<u64>, RandomState>)
    ensures
        frontier_scores(fresh) =~= Map::empty(),
{
    PriorityQueue::new()
}

/// `PriorityQueue::len`: the number of cells that wait.
#[verifier::external_body]
pub(crate) fn frontier_len(queue: &PriorityQueue<Cell, Reverse<u64>, RandomState>) -> (n: usize)
    ensures
        n == frontier_scores(*queue).dom().len(),
{
    queue.len()
}

/// `PriorityQueue::push` with the score wrapped in `Reverse`: a cell that
/// does not wait yet is added with `score`; one that waits already stays
/// once and takes `score` in place of its old score. Every other cell keeps
/// its score.
#[verifier::external_body]
pub(crate) fn frontier_push(
    queue: &mut PriorityQueue<Cell, Reverse<u64>, RandomState>,
    cell: Cell,
    score: u64,
)
    ensures
        frontier_scores(*final(queue)) == frontier_scores(*old(queue)).insert(cell, score),
{
    queue.push(cell, Reverse(score));
}

/// `PriorityQueue::pop`, with the score taken out of its `Reverse`: from an
/// empty queue nothing comes and nothing changes; otherwise a waiting cell
/// leaves together with its score, no waiting cell has a smaller score, and
/// the others stay as they are. Which of several cells with the least score
/// leaves is left open.
#[verifier::external_body]
pub(crate) fn frontier_pop(queue: &mut PriorityQueue<Cell, Reverse<u64>, RandomState>) -> (popped:
    Option<(Cell, u64)>)
    ensures
        popped is None <==> frontier_scores(*old(queue)).dom() == Set::<Cell>::empty(),
        popped is None ==> frontier_scores(*final(queue)) == frontier_scores(*old(queue)),
        popped matches Some((cell, score)) ==> {
            &&& frontier_scores(*old(queue)).contains_key(cell)
            &&& frontier_scores(*old(queue))[cell] == score
            &&& forall|other: Cell| #[trigger]
                frontier_scores(*old(queue)).contains_key(other) ==> score <= frontier_scores(
                    *old(queue),
                )[other]
            &&& frontier_scores(*final(queue)) == frontier_scores(*old(queue)).remove(cell)
        },
{
    match queue.pop() {
        Some((cell, Reverse(score))) => Some((cell, score)),
        None => None,
    }
}

} // verus!
