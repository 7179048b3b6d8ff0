//! The priority queue of the `priority_queue` crate, over seed identifiers
//! ranked by pairs of integers.

use priority_queue::PriorityQueue;
use std::hash::RandomState;
use vstd::prelude::*;

verus! {

#[verifier::external_type_specification]
#[verifier::external_body]
#[verifier::reject_recursive_types(I)]
#[verifier::reject_recursive_types(P)]
#[verifier::reject_recursive_types(H)]
pub struct ExPriorityQueue<I, P, H>(PriorityQueue<I, P, H>);

/// The items of a queue, each with its priority.
pub uninterp spec fn queue_items(q: PriorityQueue<usize, (u64, u64), RandomState>) -> Map<
    usize,
    (u64, u64),
>;

/// A queue without items.
pub open spec fn no_items() -> Map<usize, (u64, u64)> {
    Map::empty()
}

/// The order of pairs of integers.
pub open spec fn pair_le(a: (u64, u64), b: (u64, u64)) -> bool {
    a.0 < b.0 || (a.0 == b.0 && a.1 <= b.1)
}

/// Calls `PriorityQueue::new`: the queue is empty.
#[verifier::external_body]
pub(crate) fn queue_new() -> (q: PriorityQueue<usize, (u64, u64), RandomState>)
    ensures
        queue_items(q) == no_items(),
{
    PriorityQueue::new()
}

/// Calls `PriorityQueue::push`: the item is in the queue with the given
/// priority, whether it was there before or not.
#[verifier::external_body]
pub(crate) fn queue_push(
    q: &mut PriorityQueue<usize, (u64, u64), RandomState>,
    item: usize,
    priority: (u64, u64),
)
    ensures
        queue_items(*final(q)) == queue_items(*old(q)).insert(item, priority),
{
    q.push(item, priority);
}

/// Calls `PriorityQueue::get`: finds the priority of an item, if it is in the
/// queue.
#[verifier::external_body]
pub(crate) fn queue_get(
    q: &PriorityQueue<usize, (u64, u64), RandomState>,
    item: usize,
) -> (r: Option<(u64, u64)>)
    ensures
        match r {
            Some(p) => queue_items(*q).contains_key(item) && queue_items(*q)[item] == p,
            None => !queue_items(*q).contains_key(item),
        },
{
    q.get(&item).map(|e| *e.1)
}

/// Calls `PriorityQueue::remove`: the item leaves the queue, if it was there.
#[verifier::external_body]
pub(crate) fn queue_remove(q: &mut PriorityQueue<usize, (u64, u64), RandomState>, item: usize)
    ensures
        queue_items(*final(q)) == queue_items(*old(q)).remove(item),
{
    q.remove(&item);
}

/// Calls `PriorityQueue::peek`: an item with the greatest priority. Which of
/// several such items it is stays open.
#[verifier::external_body]
pub(crate) fn queue_peek(q: &PriorityQueue<usize, (u64, u64), RandomState>) -> (r: Option<
    (usize, (u64, u64)),
>)
    ensures
        match r {
            Some((item, p)) => {
                &&& queue_items(*q).contains_key(item)
                &&& queue_items(*q)[item] == p
                &&& forall|i: usize| #[trigger]
                    queue_items(*q).contains_key(i) ==> pair_le(queue_items(*q)[i], p)
            },
            None => queue_items(*q) == no_items(),
        },
{
    q.peek().map(|e| (*e.0, *e.1))
}

/// Calls `PriorityQueue::change_priority`: an item of the queue gets a new
/// priority; nothing else changes.
#[verifier::external_body]
pub(crate) fn queue_change_priority(
    q: &mut PriorityQueue<usize, (u64, u64), RandomState>,
    item: usize,
    priority: (u64, u64),
)
    ensures
        queue_items(*final(q)) == if queue_items(*old(q)).contains_key(item) {
            queue_items(*old(q)).insert(item, priority)
        } else {
            queue_items(*old(q))
        },
{
    q.change_priority(&item, priority);
}

/// Calls `PriorityQueue::len`: the number of items.
#[verifier::external_body]
pub(crate) fn queue_len(q: &PriorityQueue<usize, (u64, u64), RandomState>) -> (r: usize)
    ensures
        r == queue_items(*q).dom().len(),
{
    q.len()
}

} // verus!
