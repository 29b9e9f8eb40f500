//! The priority queue of the `priority_queue` crate, as the frontier uses
//! it: handles of nodes, each under the key that its policy gave it, the
//! smallest key leaving first.
//!
//! Nothing in this file is proved. It declares the queue's type, gives what
//! the queue holds a name, and states of each method that the frontier calls
//! what the crate's source shows of it.
use vstd::prelude::*;
use priority_queue::PriorityQueue;
use std::cmp::Reverse;

verus! {

#[verifier::external_type_specification]
#[verifier::external_body]
#[verifier::reject_recursive_types(I)]
#[verifier::reject_recursive_types(P)]
#[verifier::reject_recursive_types(H)]
pub struct ExPriorityQueue<I, P, H>(PriorityQueue<I, P, H>);

#[verifier::external_type_specification]
#[verifier::external_body]
#[verifier::reject_recursive_types(T)]
pub struct ExReverse<T>(Reverse<T>);

/// What a queue holds: each handle in it, with the key it is kept under.
pub uninterp spec fn queue_keys(queue: PriorityQueue<usize, Reverse<u128>>) -> Map<usize, u128>;

/// `PriorityQueue::new`: a queue that holds nothing.
#[verifier::external_body]
pub(crate) fn queue_new() -> (queue: PriorityQueue<usize, Reverse<u128>>)
    ensures
        queue_keys(queue) == (Map::<usize, u128>::empty()),
{
    PriorityQueue::new()
}

/// `PriorityQueue::push`, with the key turned round so that the smallest
/// key has the greatest priority. Afterwards `handle` is kept under `key`,
/// and nothing else has changed. The result is the key that `handle` was
/// kept under before, if it was in the queue.
#[verifier::external_body]
pub(crate) fn queue_push(
    queue: &mut PriorityQueue<usize, Reverse<u128>>,
    handle: usize,
    key: u128,
) -> (replaced: Option<u128>)
    ensures
        queue_keys(*final(queue)) == queue_keys(*old(queue)).insert(handle, key),
        replaced == if queue_keys(*old(queue)).dom().contains(handle) {
            Some(queue_keys(*old(queue))[handle])
        } else {
            None
        },
{
    match queue.push(handle, Reverse(key)) {
        Some(Reverse(before)) => Some(before),
        None => None,
    }
}

/// `PriorityQueue::pop`. `None` exactly when the queue holds nothing, and
/// then it is unchanged. Otherwise a handle of the queue leaves it, with
/// its key, and no key in the queue was smaller; which of several handles
/// under the smallest key leaves is left open.
#[verifier::external_body]
pub(crate) fn queue_pop(queue: &mut PriorityQueue<usize, Reverse<u128>>) -> (popped: Option<
    (usize, u128),
>)
    ensures
        match popped {
            Some((handle, key)) => {
                &&& queue_keys(*old(queue)).dom().contains(handle)
                &&& queue_keys(*old(queue))[handle] == key
                &&& forall|other: usize| #[trigger]
                    queue_keys(*old(queue)).dom().contains(other) ==> key <= queue_keys(
                        *old(queue),
                    )[other]
                &&& queue_keys(*final(queue)) == queue_keys(*old(queue)).remove(handle)
            },
            None => {
                &&& queue_keys(*old(queue)) == (Map::<usize, u128>::empty())
                &&& queue_keys(*final(queue)) == queue_keys(*old(queue))
            },
        },
{
    match queue.pop() {
        Some((handle, Reverse(key))) => Some((handle, key)),
        None => None,
    }
}

/// `PriorityQueue::clear`: afterwards the queue holds nothing.
#[verifier::external_body]
pub(crate) fn queue_clear(queue: &mut PriorityQueue<usize, Reverse<u128>>)
    ensures
        queue_keys(*final(queue)) == (Map::<usize, u128>::empty()),
{
    queue.clear()
}

/// `PriorityQueue::len`: the number of handles in the queue.
#[verifier::external_body]
pub(crate) fn queue_len(queue: &PriorityQueue<usize, Reverse<u128>>) -> (len: usize)
    ensures
        len == queue_keys(*queue).dom().len(),
{
    queue.len()
}

} // verus!
