//! The binary heap of the `priority_queue` crate, seen through the map from
//! items to priorities that it holds.
use vstd::prelude::*;
use priority_queue::PriorityQueue;
use std::cmp::Reverse;
use crate::order::key_le;

verus! {

/// `std::cmp::Reverse`, which turns the queue's greatest-first order into
/// least-first; held opaque and only built inside the wrappers below.
#[verifier::external_type_specification]
#[verifier::external_body]
#[verifier::reject_recursive_types(T)]
pub struct ExReverse<T>(Reverse<T>);

/// `priority_queue::PriorityQueue`, held opaque; what it holds is
/// `queue_entries`.
#[verifier::external_type_specification]
#[verifier::external_body]
#[verifier::reject_recursive_types(I)]
#[verifier::reject_recursive_types(P)]
#[verifier::reject_recursive_types(H)]
pub struct ExPriorityQueue<I, P, H>(PriorityQueue<I, P, H>);

/// Item stored for a resting order: (arrival, id, quantity).
pub type QueueItem = (u64, usize, u32);

/// The queue of resting orders, with (price, arrival) as a reversed priority
/// so that the smallest pair is popped first.
pub type Queue = PriorityQueue<QueueItem, Reverse<(u32, u64)>>;

/// Items mapped to their (price, arrival) priority.
pub type QueueMap = Map<QueueItem, (u32, u64)>;

/// What the queue holds: each item with its priority, taken out of `Reverse`.
pub uninterp spec fn queue_entries(q: Queue) -> QueueMap;

/// Relies on `PriorityQueue::new`: the new queue is empty.
#[verifier::external_body]
pub(crate) fn queue_new() -> (r: Queue)
    ensures
        queue_entries(r) == QueueMap::empty(),
{
    PriorityQueue::new()
}

/// Relies on `PriorityQueue::push`: inserts the item, or gives an item equal
/// to it the new priority.
#[verifier::external_body]
pub(crate) fn queue_push(q: &mut Queue, item: QueueItem, price: u32, arrival: u64)
    ensures
        queue_entries(*final(q)) == queue_entries(*old(q)).insert(item, (price, arrival)),
{
    q.push(item, Reverse((price, arrival)));
}

/// Relies on `PriorityQueue::peek`: an item of greatest priority, which under
/// `Reverse` is one with the smallest (price, arrival) pair in tuple order.
#[verifier::external_body]
pub(crate) fn queue_peek(q: &Queue) -> (r: Option<(QueueItem, (u32, u64))>)
    ensures
        r is None <==> queue_entries(*q) == QueueMap::empty(),
        r matches Some((item, key)) ==> {
            &&& queue_entries(*q).contains_key(item)
            &&& queue_entries(*q)[item] == key
            &&& forall|k: QueueItem| #[trigger]
                queue_entries(*q).contains_key(k) ==> key_le(key, queue_entries(*q)[k])
        },
{
    q.peek().map(|(i, p)| (*i, p.0))
}

/// Relies on `PriorityQueue::pop`: removes and returns an item of greatest
/// priority, which under `Reverse` is one with the smallest (price, arrival)
/// pair in tuple order.
#[verifier::external_body]
pub(crate) fn queue_pop(q: &mut Queue) -> (r: Option<(QueueItem, (u32, u64))>)
    ensures
        r is None <==> queue_entries(*old(q)) == QueueMap::empty(),
        r is None ==> queue_entries(*final(q)) == queue_entries(*old(q)),
        r matches Some((item, key)) ==> {
            &&& queue_entries(*old(q)).contains_key(item)
            &&& queue_entries(*old(q))[item] == key
            &&& forall|k: QueueItem| #[trigger]
                queue_entries(*old(q)).contains_key(k) ==> key_le(
                    key,
                    queue_entries(*old(q))[k],
                )
            &&& queue_entries(*final(q)) == queue_entries(*old(q)).remove(item)
        },
{
    q.pop().map(|(i, p)| (i, p.0))
}

} // verus!
