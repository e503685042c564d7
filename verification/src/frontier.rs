//! The queue of entities that a traversal has still to visit.
//!
//! The contracts in this module are believed, not proved: each one says in its
//! comment which function of the `priority_queue` crate stands behind it and
//! what is claimed of it.

use priority_queue::PriorityQueue;
use vstd::prelude::*;

verus! {

/// `priority_queue::PriorityQueue`, of which nothing is known but what [`queued`]
/// says.
#[verifier::external_type_specification]
#[verifier::external_body]
#[verifier::reject_recursive_types(I)]
#[verifier::reject_recursive_types(P)]
#[verifier::reject_recursive_types(H)]
pub struct ExPriorityQueue<I, P, H>(PriorityQueue<I, P, H>);

/// What is in a queue: each item with its priority.
pub uninterp spec fn queued(queue: PriorityQueue<(u128, usize), (i64, u128)>) -> Map<
    (u128, usize),
    (i64, u128),
>;

/// The order of priorities, by their first part and then by their second.
pub open spec fn lower(a: (i64, u128), b: (i64, u128)) -> bool {
    a.0 < b.0 || (a.0 == b.0 && a.1 < b.1)
}

/// Whether an item is queued and no other one has a higher priority.
pub open spec fn on_top(queue: Map<(u128, usize), (i64, u128)>, item: (u128, usize)) -> bool {
    &&& queue.contains_key(item)
    &&& forall|other: (u128, usize)| #[trigger]
        queue.contains_key(other) ==> !lower(queue[item], queue[other])
}

/// A queue after an item was put in or its priority raised; a priority is never
/// lowered.
pub open spec fn raised(
    queue: Map<(u128, usize), (i64, u128)>,
    item: (u128, usize),
    priority: (i64, u128),
) -> Map<(u128, usize), (i64, u128)> {
    if !queue.contains_key(item) || lower(queue[item], priority) {
        queue.insert(item, priority)
    } else {
        queue
    }
}

/// `priority_queue::PriorityQueue::new`: an empty queue.
#[verifier::external_body]
pub(crate) fn empty_queue() -> (queue: PriorityQueue<(u128, usize), (i64, u128)>)
    ensures
        queued(queue).is_empty(),
{
    PriorityQueue::new()
}

/// `priority_queue::PriorityQueue::push`: puts an item in, or gives it another
/// priority where it is there already, and returns the priority that it had.
#[verifier::external_body]
pub(crate) fn push(
    queue: &mut PriorityQueue<(u128, usize), (i64, u128)>,
    item: (u128, usize),
    priority: (i64, u128),
) -> (previous: Option<(i64, u128)>)
    ensures
        queued(*final(queue)) == queued(*old(queue)).insert(item, priority),
        previous == (if queued(*old(queue)).contains_key(item) {
            Some(queued(*old(queue))[item])
        } else {
            None
        }),
{
    queue.push(item, priority)
}

/// `priority_queue::PriorityQueue::push_increase`: puts an item in, or raises
/// its priority where it is there with a lower one. It returns nothing for a new
/// item, the lower priority for one that was raised, and the offered priority
/// for one that stays as it is.
#[verifier::external_body]
pub(crate) fn push_increase(
    queue: &mut PriorityQueue<(u128, usize), (i64, u128)>,
    item: (u128, usize),
    priority: (i64, u128),
) -> (previous: Option<(i64, u128)>)
    ensures
        queued(*final(queue)) == raised(queued(*old(queue)), item, priority),
        previous == (if !queued(*old(queue)).contains_key(item) {
            None
        } else if lower(queued(*old(queue))[item], priority) {
            Some(queued(*old(queue))[item])
        } else {
            Some(priority)
        }),
{
    queue.push_increase(item, priority)
}

/// `priority_queue::PriorityQueue::pop`: takes out an item of the greatest
/// priority, with that priority. Nothing comes out exactly where nothing is in.
/// Which of several items of the greatest priority comes out is not claimed.
#[verifier::external_body]
pub(crate) fn pop(queue: &mut PriorityQueue<(u128, usize), (i64, u128)>) -> (popped: Option<
    ((u128, usize), (i64, u128)),
>)
    ensures
        match popped {
            Some(entry) => on_top(queued(*old(queue)), entry.0) && entry.1 == queued(
                *old(queue),
            )[entry.0] && queued(*final(queue)) == queued(*old(queue)).remove(entry.0),
            None => queued(*old(queue)).is_empty()
                && queued(*final(queue)) == queued(*old(queue)),
        },
{
    queue.pop()
}

} // verus!
