//! The collections that a frontier can keep its waiting nodes in, and the
//! order in which each lets them go.
//!
//! A frontier owns its nodes and hands a backend only a handle for each: a
//! number that grows from one node to the next. A backend keeps the handles,
//! each under a key, and decides which leaves next.
use vstd::prelude::*;
use std::collections::VecDeque;
use std::marker::PhantomData;
use std::cmp::Reverse;
use priority_queue::PriorityQueue;
use crate::node::Node;
use crate::priority::{queue_clear, queue_keys, queue_len, queue_new, queue_pop, queue_push};
use crate::problem::Utility;

verus! {

/// A collection of handles with a rule for which leaves first.
pub trait FrontierBackend: Sized {
    /// What the collection needs to hold of itself between calls.
    spec fn inv(&self) -> bool;

    /// The handles that wait, each with the key it was enqueued under.
    spec fn keys(&self) -> Map<usize, u128>;

    /// The key under which a node of path cost `g` and estimate `h` is kept.
    spec fn key_of(g: u128, h: u64) -> u128;

    /// The rule: the first handle, kept under the first key, may leave while
    /// the second waits.
    spec fn precedes(first: usize, first_key: u128, second: usize, second_key: u128) -> bool;

    fn empty() -> (backend: Self)
        ensures
            backend.inv(),
            backend.keys() == Map::<usize, u128>::empty(),
    ;

    /// Takes in `handle`, which is larger than every handle that waits, for
    /// `item`.
    fn enqueue<'a, P: Utility>(&mut self, handle: usize, item: &Node<'a, P>)
        requires
            old(self).inv(),
            item.wf(),
            forall|waiting: usize| old(self).keys().dom().contains(waiting) ==> waiting < handle,
        ensures
            final(self).inv(),
            final(self).keys() == old(self).keys().insert(
                handle,
                Self::key_of(item.total_cost, item.heuristic),
            ),
    ;

    /// Lets go of the handle that the rule puts before all others; `None`
    /// exactly when nothing waits.
    fn dequeue(&mut self) -> (handle: Option<usize>)
        requires
            old(self).inv(),
        ensures
            final(self).inv(),
            match handle {
                Some(first) => {
                    &&& old(self).keys().dom().contains(first)
                    &&& final(self).keys() == old(self).keys().remove(first)
                    &&& forall|other: usize| #[trigger]
                        old(self).keys().dom().contains(other) ==> Self::precedes(
                            first,
                            old(self).keys()[first],
                            other,
                            old(self).keys()[other],
                        )
                },
                None => {
                    &&& old(self).keys() == Map::<usize, u128>::empty()
                    &&& final(self).keys() == old(self).keys()
                },
            },
    ;

    fn reset(&mut self)
        ensures
            final(self).inv(),
            final(self).keys() == Map::<usize, u128>::empty(),
    ;

    /// The number of handles that wait.
    fn size(&self) -> (size: usize)
        requires
            self.inv(),
        ensures
            self.keys().dom().finite(),
            size == self.keys().dom().len(),
    ;
}

/// The handles of `handles`, each under the key 0: what a backend holds
/// that orders by handle alone.
pub open spec fn unkeyed(handles: Seq<usize>) -> Map<usize, u128> {
    Map::new(|handle: usize| handles.contains(handle), |handle: usize| 0u128)
}

/// `handles` grows from each item to the next.
pub open spec fn ascending(handles: Seq<usize>) -> bool {
    forall|i: int, j: int| 0 <= i < j < handles.len() ==> handles[i] < handles[j]
}

/// As many handles wait in an ascending sequence as it is long.
pub proof fn lemma_unkeyed_len(handles: Seq<usize>)
    requires
        ascending(handles),
    ensures
        unkeyed(handles).dom().finite(),
        unkeyed(handles).dom().len() == handles.len(),
{
    assert(unkeyed(handles).dom() =~= handles.to_set());
    assert(handles.no_duplicates());
    handles.unique_seq_to_set();
}

/// Pushing a handle larger than all that wait keeps the sequence
/// ascending, and adds that handle to those that wait.
pub proof fn lemma_unkeyed_push(handles: Seq<usize>, handle: usize)
    requires
        ascending(handles),
        forall|waiting: usize| unkeyed(handles).dom().contains(waiting) ==> waiting < handle,
    ensures
        ascending(handles.push(handle)),
        unkeyed(handles.push(handle)) == unkeyed(handles).insert(handle, 0u128),
{
    let after = handles.push(handle);
    assert forall|i: int, j: int| 0 <= i < j < after.len() implies after[i] < after[j] by {
        if j == handles.len() {
            assert(handles.contains(handles[i]));
            assert(unkeyed(handles).dom().contains(handles[i]));
        } else {
            assert(handles[i] < handles[j]);
        }
    }
    assert forall|h: usize| after.contains(h) <==> (handles.contains(h) || h == handle) by {
        if handles.contains(h) {
            let i = choose|i: int| 0 <= i < handles.len() && handles[i] == h;
            assert(after[i] == h);
        }
        if h == handle {
            assert(after[handles.len() as int] == h);
        }
        if after.contains(h) {
            let i = choose|i: int| 0 <= i < after.len() && after[i] == h;
            if i < handles.len() {
                assert(handles[i] == h);
            }
        }
    }
    assert forall|h: usize|
        unkeyed(after).dom().contains(h) <==> unkeyed(handles).insert(handle, 0u128).dom().contains(
            h,
        ) by {
        assert(unkeyed(after).dom().contains(h) <==> after.contains(h));
        assert(unkeyed(handles).dom().contains(h) <==> handles.contains(h));
    }
    assert(unkeyed(after) =~= unkeyed(handles).insert(handle, 0u128));
}

/// The first handle of an ascending sequence is the smallest that waits,
/// and without it the rest is ascending still.
pub proof fn lemma_unkeyed_front(handles: Seq<usize>)
    requires
        ascending(handles),
    ensures
        handles.len() == 0 ==> unkeyed(handles) == Map::<usize, u128>::empty(),
        handles.len() > 0 ==> {
            &&& ascending(handles.subrange(1, handles.len() as int))
            &&& unkeyed(handles).dom().contains(handles[0])
            &&& unkeyed(handles.subrange(1, handles.len() as int)) == unkeyed(handles).remove(
                handles[0],
            )
            &&& forall|other: usize| #[trigger]
                unkeyed(handles).dom().contains(other) ==> handles[0] <= other
        },
{
    if handles.len() == 0 {
        assert(unkeyed(handles) =~= Map::<usize, u128>::empty());
    } else {
        let rest = handles.subrange(1, handles.len() as int);
        let first = handles[0];
        assert(handles.contains(first));
        assert forall|i: int, j: int| 0 <= i < j < rest.len() implies rest[i] < rest[j] by {
            assert(handles[i + 1] < handles[j + 1]);
        }
        assert forall|h: usize| rest.contains(h) <==> (handles.contains(h) && h != first) by {
            if rest.contains(h) {
                let i = choose|i: int| 0 <= i < rest.len() && rest[i] == h;
                assert(handles[i + 1] == h);
                assert(handles[0] < handles[i + 1]);
            }
            if handles.contains(h) && h != first {
                let i = choose|i: int| 0 <= i < handles.len() && handles[i] == h;
                assert(rest[i - 1] == h);
            }
        }
        assert forall|h: usize|
            unkeyed(rest).dom().contains(h) <==> unkeyed(handles).remove(first).dom().contains(
                h,
            ) by {
            assert(unkeyed(rest).dom().contains(h) <==> rest.contains(h));
            assert(unkeyed(handles).dom().contains(h) <==> handles.contains(h));
        }
        assert(unkeyed(rest) =~= unkeyed(handles).remove(first));
        assert forall|other: usize| #[trigger]
            unkeyed(handles).dom().contains(other) implies first <= other by {
            let i = choose|i: int| 0 <= i < handles.len() && handles[i] == other;
            if i > 0 {
                assert(handles[0] < handles[i]);
            }
        }
    }
}

/// First in, first out: the backend of breadth-first search.
pub type DequeBackend = VecDeque<usize>;

impl FrontierBackend for DequeBackend {
    open spec fn inv(&self) -> bool {
        ascending(self@)
    }

    open spec fn keys(&self) -> Map<usize, u128> {
        unkeyed(self@)
    }

    open spec fn key_of(g: u128, h: u64) -> u128 {
        0
    }

    /// The handle that came first leaves first.
    open spec fn precedes(first: usize, first_key: u128, second: usize, second_key: u128) -> bool {
        first <= second
    }

    fn empty() -> (backend: Self) {
        let backend = VecDeque::new();
        assert(unkeyed(backend@) =~= Map::<usize, u128>::empty());
        backend
    }

    fn enqueue<'a, P: Utility>(&mut self, handle: usize, item: &Node<'a, P>) {
        self.push_back(handle);
        proof {
            lemma_unkeyed_push(old(self)@, handle);
        }
    }

    fn dequeue(&mut self) -> (handle: Option<usize>) {
        let handle = self.pop_front();
        proof {
            lemma_unkeyed_front(old(self)@);
        }
        handle
    }

    fn reset(&mut self) {
        self.clear();
        assert(unkeyed(self@) =~= Map::<usize, u128>::empty());
    }

    fn size(&self) -> (size: usize) {
        proof {
            lemma_unkeyed_len(self@);
        }
        self.len()
    }
}

/// The last handle of an ascending sequence is the largest that waits.
pub proof fn lemma_unkeyed_back(handles: Seq<usize>)
    requires
        ascending(handles),
    ensures
        handles.len() == 0 ==> unkeyed(handles) == Map::<usize, u128>::empty(),
        handles.len() > 0 ==> {
            &&& ascending(handles.drop_last())
            &&& unkeyed(handles).dom().contains(handles.last())
            &&& unkeyed(handles.drop_last()) == unkeyed(handles).remove(handles.last())
            &&& forall|other: usize| #[trigger]
                unkeyed(handles).dom().contains(other) ==> other <= handles.last()
        },
{
    if handles.len() == 0 {
        assert(unkeyed(handles) =~= Map::<usize, u128>::empty());
    } else {
        let rest = handles.drop_last();
        let last = handles.last();
        assert(handles.contains(last));
        assert forall|i: int, j: int| 0 <= i < j < rest.len() implies rest[i] < rest[j] by {
            assert(handles[i] < handles[j]);
        }
        assert forall|h: usize| rest.contains(h) <==> (handles.contains(h) && h != last) by {
            if rest.contains(h) {
                let i = choose|i: int| 0 <= i < rest.len() && rest[i] == h;
                assert(handles[i] == h);
                assert(handles[i] < handles[handles.len() - 1]);
            }
            if handles.contains(h) && h != last {
                let i = choose|i: int| 0 <= i < handles.len() && handles[i] == h;
                assert(rest[i] == h);
            }
        }
        assert forall|h: usize|
            unkeyed(rest).dom().contains(h) <==> unkeyed(handles).remove(last).dom().contains(
                h,
            ) by {
            assert(unkeyed(rest).dom().contains(h) <==> rest.contains(h));
            assert(unkeyed(handles).dom().contains(h) <==> handles.contains(h));
        }
        assert(unkeyed(rest) =~= unkeyed(handles).remove(last));
        assert forall|other: usize| #[trigger]
            unkeyed(handles).dom().contains(other) implies other <= last by {
            let i = choose|i: int| 0 <= i < handles.len() && handles[i] == other;
            if i < handles.len() - 1 {
                assert(handles[i] < handles[handles.len() - 1]);
            }
        }
    }
}

/// Last in, first out: the backend of depth-first search.
pub type StackBackend = Vec<usize>;

impl FrontierBackend for StackBackend {
    open spec fn inv(&self) -> bool {
        ascending(self@)
    }

    open spec fn keys(&self) -> Map<usize, u128> {
        unkeyed(self@)
    }

    open spec fn key_of(g: u128, h: u64) -> u128 {
        0
    }

    /// The handle that came last leaves first.
    open spec fn precedes(first: usize, first_key: u128, second: usize, second_key: u128) -> bool {
        first >= second
    }

    fn empty() -> (backend: Self) {
        let backend = Vec::new();
        assert(unkeyed(backend@) =~= Map::<usize, u128>::empty());
        backend
    }

    fn enqueue<'a, P: Utility>(&mut self, handle: usize, item: &Node<'a, P>) {
        self.push(handle);
        proof {
            lemma_unkeyed_push(old(self)@, handle);
        }
    }

    fn dequeue(&mut self) -> (handle: Option<usize>) {
        let handle = self.pop();
        proof {
            lemma_unkeyed_back(old(self)@);
        }
        handle
    }

    fn reset(&mut self) {
        self.clear();
        assert(unkeyed(self@) =~= Map::<usize, u128>::empty());
    }

    fn size(&self) -> (size: usize) {
        proof {
            lemma_unkeyed_len(self@);
        }
        self.len()
    }
}

/// How a priority backend weighs a node: the smaller the cost, the sooner
/// the node leaves.
pub trait NodeCost {
    /// The weight of a node of path cost `g` and estimate `h`.
    spec fn weight(g: u128, h: u64) -> u128;

    fn cost<'a, P: Utility>(node: &Node<'a, P>) -> (cost: u128)
        requires
            node.wf(),
        ensures
            cost == Self::weight(node.total_cost, node.heuristic),
    ;
}

/// Path cost and estimate together: A*.
pub struct AStarPolicy {}

impl NodeCost for AStarPolicy {
    open spec fn weight(g: u128, h: u64) -> u128 {
        if g + h <= u128::MAX {
            (g + h) as u128
        } else {
            u128::MAX
        }
    }

    fn cost<'a, P: Utility>(node: &Node<'a, P>) -> (cost: u128) {
        node.get_f_cost()
    }
}

/// The estimate alone: greedy best-first search.
pub struct BestFirstPolicy {}

impl NodeCost for BestFirstPolicy {
    open spec fn weight(g: u128, h: u64) -> u128 {
        h as u128
    }

    fn cost<'a, P: Utility>(node: &Node<'a, P>) -> (cost: u128) {
        node.get_h_cost() as u128
    }
}

/// The path cost alone: uniform-cost search.
pub struct MinCostPolicy {}

impl NodeCost for MinCostPolicy {
    open spec fn weight(g: u128, h: u64) -> u128 {
        g
    }

    fn cost<'a, P: Utility>(node: &Node<'a, P>) -> (cost: u128) {
        node.get_g_cost()
    }
}

/// Smallest weight first, the weight being that of `Policy`.
pub struct PriorityBackend<Policy: NodeCost> {
    pub collection: PriorityQueue<usize, Reverse<u128>>,
    pub policy: PhantomData<Policy>,
}

impl<Policy: NodeCost> FrontierBackend for PriorityBackend<Policy> {
    open spec fn inv(&self) -> bool {
        queue_keys(self.collection).dom().finite()
    }

    open spec fn keys(&self) -> Map<usize, u128> {
        queue_keys(self.collection)
    }

    open spec fn key_of(g: u128, h: u64) -> u128 {
        Policy::weight(g, h)
    }

    /// The handle under the smaller key leaves first; among equal keys the
    /// order is the queue's own.
    open spec fn precedes(first: usize, first_key: u128, second: usize, second_key: u128) -> bool {
        first_key <= second_key
    }

    fn empty() -> (backend: Self) {
        Self { collection: queue_new(), policy: PhantomData }
    }

    fn enqueue<'a, P: Utility>(&mut self, handle: usize, item: &Node<'a, P>) {
        let cost = Policy::cost(item);
        let _ = queue_push(&mut self.collection, handle, cost);
    }

    fn dequeue(&mut self) -> (handle: Option<usize>) {
        match queue_pop(&mut self.collection) {
            Some((handle, _)) => Some(handle),
            None => None,
        }
    }

    fn reset(&mut self) {
        queue_clear(&mut self.collection)
    }

    fn size(&self) -> (size: usize) {
        queue_len(&self.collection)
    }
}

pub type MinCostBackend = PriorityBackend<MinCostPolicy>;

pub type BestFirstBackend = PriorityBackend<BestFirstPolicy>;

pub type AStarBackend = PriorityBackend<AStarPolicy>;

} // verus!
