//! Trusted view of the outside priority queue that drives the Dijkstra
//! searches: `priority_queue::PriorityQueue` keeps one priority per item and
//! pops a greatest-priority item. Its contents are modeled as a map from
//! item to priority.

use priority_queue::PriorityQueue;
use vstd::prelude::*;

verus! {

#[verifier::external_type_specification]
#[verifier::external_body]
#[verifier::reject_recursive_types(I)]
#[verifier::reject_recursive_types(P)]
#[verifier::reject_recursive_types(H)]
pub struct ExPriorityQueue<I, P, H>(PriorityQueue<I, P, H>);

/// What the queue holds: each item it contains, with its priority.
pub uninterp spec fn pq_contents(q: PriorityQueue<u64, u64>) -> Map<u64, u64>;

/// Relies on `PriorityQueue::new`: a fresh queue is empty.
#[verifier::external_body]
pub fn pq_new() -> (queue: PriorityQueue<u64, u64>)
    ensures
        forall|j: u64| !pq_contents(queue).dom().contains(j),
        pq_contents(queue).dom().finite(),
{
    PriorityQueue::new()
}

/// Relies on `PriorityQueue::push`: inserts the item, or replaces its
/// priority if it is already present.
#[verifier::external_body]
pub fn pq_push(q: &mut PriorityQueue<u64, u64>, item: u64, priority: u64)
    ensures
        pq_contents(*final(q)) == pq_contents(*old(q)).insert(item, priority),
{
    q.push(item, priority);
}

/// Relies on `PriorityQueue::pop`: removes and returns an item with the
/// greatest priority, or returns nothing from an empty queue.
#[verifier::external_body]
pub fn pq_pop(q: &mut PriorityQueue<u64, u64>) -> (r: Option<(u64, u64)>)
    ensures
        match r {
            None => pq_contents(*old(q)).dom() =~= Set::<u64>::empty() && pq_contents(*final(q))
                == pq_contents(*old(q)),
            Some((item, priority)) => {
                &&& pq_contents(*old(q)).contains_pair(item, priority)
                &&& forall|j: u64|
                    pq_contents(*old(q)).dom().contains(j) ==> pq_contents(*old(q))[j]
                        <= priority
                &&& pq_contents(*final(q)) == pq_contents(*old(q)).remove(item)
            },
        },
{
    q.pop()
}

/// Relies on `PriorityQueue::get_priority`: the priority of an item, if the
/// item is in the queue.
#[verifier::external_body]
pub fn pq_get_priority(q: &PriorityQueue<u64, u64>, item: u64) -> (r: Option<u64>)
    ensures
        r == if pq_contents(*q).dom().contains(item) {
            Some(pq_contents(*q)[item])
        } else {
            None::<u64>
        },
{
    q.get_priority(&item).copied()
}

/// Relies on `PriorityQueue::change_priority`: sets the priority of an item
/// that is in the queue; does nothing for an absent item.
#[verifier::external_body]
pub fn pq_change_priority(q: &mut PriorityQueue<u64, u64>, item: u64, priority: u64)
    ensures
        pq_contents(*final(q)) == if pq_contents(*old(q)).dom().contains(item) {
            pq_contents(*old(q)).insert(item, priority)
        } else {
            pq_contents(*old(q))
        },
{
    q.change_priority(&item, priority);
}

} // verus!
