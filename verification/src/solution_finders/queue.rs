//! The priority queue that orders the search, as far as the search relies
//! on it. Nothing here is proved: each function states what the queue
//! library's own code does.

use priority_queue::PriorityQueue;
use std::hash::RandomState;
use vstd::prelude::*;

verus! {

/// `priority_queue::PriorityQueue`: items, each with a priority. Nothing is
/// known of it but what the functions below state.
#[verifier::external_type_specification]
#[verifier::external_body]
#[verifier::reject_recursive_types(I)]
#[verifier::reject_recursive_types(P)]
#[verifier::reject_recursive_types(H)]
pub struct ExPriorityQueue<I, P, H>(PriorityQueue<I, P, H>);

/// A priority of the search: three numbers, compared one after the other.
pub type Rank = (isize, usize, usize);

/// A queue of node indices, each with its priority.
pub type Queue = PriorityQueue<u32, Rank, RandomState>;

/// The items of the queue, each with its priority.
pub uninterp spec fn queue_items(q: Queue) -> Map<u32, (isize, usize, usize)>;

/// The order of priorities: by the first number, then the second, then the
/// third, as tuples compare.
pub open spec fn rank_le(a: Rank, b: Rank) -> bool {
    a.0 < b.0 || (a.0 == b.0 && (a.1 < b.1 || (a.1 == b.1 && a.2 <= b.2)))
}

/// `PriorityQueue::new`: a queue without items.
#[verifier::external_body]
pub(crate) fn queue_new() -> (q: Queue)
    ensures
        queue_items(q) == (Map::<u32, Rank>::empty()),
{
    PriorityQueue::new()
}

/// `PriorityQueue::clone`: a queue with the same items and priorities.
#[verifier::external_body]
pub(crate) fn queue_clone(q: &Queue) -> (r: Queue)
    ensures
        queue_items(r) == queue_items(*q),
{
    q.clone()
}

/// `PriorityQueue::push`: puts the item into the queue with the given
/// priority, in place of the one it had if it was there, which is returned.
#[verifier::external_body]
pub(crate) fn queue_push(q: &mut Queue, item: u32, priority: Rank) -> (r: Option<Rank>)
    ensures
        queue_items(*final(q)) == queue_items(*old(q)).insert(item, priority),
        r == (if queue_items(*old(q)).contains_key(item) {
            Some(queue_items(*old(q))[item])
        } else {
            None
        }),
{
    q.push(item, priority)
}

/// `PriorityQueue::pop`: takes out an item whose priority no other item's
/// exceeds, and returns it with its priority; `None` where the queue has no
/// item. Which of several items of the greatest priority leaves is open.
#[verifier::external_body]
pub(crate) fn queue_pop(q: &mut Queue) -> (r: Option<(u32, Rank)>)
    ensures
        match r {
            Some((item, priority)) => {
                &&& queue_items(*old(q)).contains_key(item)
                &&& queue_items(*old(q))[item] == priority
                &&& forall|other: u32| #[trigger]
                    queue_items(*old(q)).contains_key(other) ==> rank_le(
                        queue_items(*old(q))[other],
                        priority,
                    )
                &&& queue_items(*final(q)) == queue_items(*old(q)).remove(item)
            },
            None => {
                &&& forall|other: u32| !queue_items(*old(q)).contains_key(other)
                &&& queue_items(*final(q)) == queue_items(*old(q))
            },
        },
{
    q.pop()
}

/// `PriorityQueue::peek`: an item whose priority no other item's exceeds,
/// with its priority; `None` where the queue has no item.
#[verifier::external_body]
pub(crate) fn queue_peek(q: &Queue) -> (r: Option<(u32, Rank)>)
    ensures
        match r {
            Some((item, priority)) => {
                &&& queue_items(*q).contains_key(item)
                &&& queue_items(*q)[item] == priority
                &&& forall|other: u32| #[trigger]
                    queue_items(*q).contains_key(other) ==> rank_le(
                        queue_items(*q)[other],
                        priority,
                    )
            },
            None => forall|other: u32| !queue_items(*q).contains_key(other),
        },
{
    q.peek().map(|(item, priority)| (*item, *priority))
}

/// `PriorityQueue::remove`: takes the item out and returns it with its
/// priority; `None`, and nothing changes, where it is not in the queue.
#[verifier::external_body]
pub(crate) fn queue_remove(q: &mut Queue, item: u32) -> (r: Option<(u32, Rank)>)
    ensures
        r == (if queue_items(*old(q)).contains_key(item) {
            Some((item, queue_items(*old(q))[item]))
        } else {
            None
        }),
        queue_items(*final(q)) == queue_items(*old(q)).remove(item),
{
    q.remove(&item)
}

/// `PriorityQueue::change_priority_by` with a setter that replaces the
/// first number of the priority: returns whether the item is in the queue,
/// and changes nothing where it is not.
#[verifier::external_body]
pub(crate) fn queue_set_first(q: &mut Queue, item: u32, first: isize) -> (r: bool)
    ensures
        r == queue_items(*old(q)).contains_key(item),
        r ==> queue_items(*final(q)) == queue_items(*old(q)).insert(
            item,
            (first, queue_items(*old(q))[item].1, queue_items(*old(q))[item].2),
        ),
        !r ==> queue_items(*final(q)) == queue_items(*old(q)),
{
    q.change_priority_by(&item, |priority| priority.0 = first)
}

/// `PriorityQueue::is_empty`: whether the queue has no item.
#[verifier::external_body]
pub(crate) fn queue_is_empty(q: &Queue) -> (r: bool)
    ensures
        r <==> forall|item: u32| !queue_items(*q).contains_key(item),
{
    q.is_empty()
}

} // verus!
