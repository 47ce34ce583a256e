//! A trusted view of the priority queue that the best-first searches order
//! their frontier with: its contents are named as a map from items to
//! priorities, and each method used is given a contract over that name.

use vstd::prelude::*;

verus! {

#[verifier::external_type_specification]
#[verifier::external_body]
#[verifier::reject_recursive_types(I)]
#[verifier::reject_recursive_types(P)]
#[verifier::reject_recursive_types(H)]
pub struct ExPriorityQueue<I, P, H>(priority_queue::PriorityQueue<I, P, H>);

/// A frontier entry: a position and the accumulated cost of reaching it.
pub type QueueItem = (usize, usize, usize);

/// The queue the searches use: items keyed by equality, each with one
/// priority, greatest priority out first.
pub type VisitQueue = priority_queue::PriorityQueue<
    QueueItem,
    usize,
    std::collections::hash_map::RandomState,
>;

/// The contents of a visit queue: which items it holds, each with its
/// priority.
pub uninterp spec fn pq_contents(q: VisitQueue) -> Map<QueueItem, usize>;

/// Relies on priority-queue's `PriorityQueue::new`: an empty queue.
#[verifier::external_body]
pub fn pq_new() -> (q: VisitQueue)
    ensures
        pq_contents(q) =~= Map::empty(),
{
    priority_queue::PriorityQueue::new()
}

/// Relies on priority-queue's `PriorityQueue::len`: the number of items
/// held.
#[verifier::external_body]
pub fn pq_len(q: &VisitQueue) -> (r: usize)
    ensures
        r == pq_contents(*q).dom().len(),
{
    q.len()
}

/// Relies on priority-queue's `PriorityQueue::push`: the item enters with
/// the given priority, replacing the priority of an equal item already held,
/// whose old priority comes back.
#[verifier::external_body]
pub fn pq_push(q: &mut VisitQueue, item: QueueItem, prio: usize) -> (r: Option<usize>)
    ensures
        pq_contents(*final(q)) == pq_contents(*old(q)).insert(item, prio),
        r == (if pq_contents(*old(q)).contains_key(item) {
            Some(pq_contents(*old(q))[item])
        } else {
            None::<usize>
        }),
{
    q.push(item, prio)
}

/// Relies on priority-queue's `PriorityQueue::pop`: an item of greatest
/// priority leaves and comes back with its priority; nothing leaves an empty
/// queue. Which of several greatest items leaves is not promised.
#[verifier::external_body]
pub fn pq_pop(q: &mut VisitQueue) -> (r: Option<(QueueItem, usize)>)
    ensures
        match r {
            Some(ip) => {
                &&& pq_contents(*old(q)).contains_key(ip.0)
                &&& pq_contents(*old(q))[ip.0] == ip.1
                &&& forall|k: QueueItem|
                    #[trigger] pq_contents(*old(q)).contains_key(k) ==> pq_contents(*old(q))[k]
                        <= ip.1
                &&& pq_contents(*final(q)) == pq_contents(*old(q)).remove(ip.0)
            },
            None => {
                &&& pq_contents(*old(q)) =~= Map::empty()
                &&& pq_contents(*final(q)) == pq_contents(*old(q))
            },
        },
{
    q.pop()
}

} // verus!
