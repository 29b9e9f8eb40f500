//! The open set of a search: the nodes that were generated and wait to be
//! expanded.
use vstd::prelude::*;
use std::collections::HashMap;
use std::hash::Hash;
use vstd::std_specs::hash::obeys_key_model;
use crate::backend::FrontierBackend;
use crate::model::{strict, Waiting};
use crate::node::Node;
use crate::problem::{clones_exactly, Utility};

verus! {

/// The nodes that wait, in a backend that decides which leaves next, with
/// an index from each state to the one live node that waits for it.
///
/// The frontier keeps every node it is given in a slot of `nodes`; the
/// number of the slot is the node's handle, and the handles grow from one
/// node to the next. `collection` holds the handles of the slots that are
/// still filled. A node that was superseded by a cheaper path to its state
/// is marked dead and left where it is; it is thrown away when its turn
/// comes.
pub struct Frontier<'a, P: Utility, Backend: FrontierBackend> {
    pub collection: Backend,
    pub nodes: Vec<Option<Node<'a, P>>>,
    pub get_node: HashMap<P::State, usize>,
}

impl<'a, P: Utility, Backend: FrontierBackend> Frontier<'a, P, Backend> {
    /// What waits in this frontier.
    pub open spec fn view(self) -> Waiting<'a, P> {
        Waiting { entries: self.nodes@, index: self.get_node@ }
    }

    /// The slots, by handle: the node that waits there, or `None` once it
    /// has left.
    pub open spec fn entries(self) -> Seq<Option<Node<'a, P>>> {
        self.nodes@
    }

    /// The index: the handle of the live node that waits for each state.
    pub open spec fn index(self) -> Map<P::State, usize> {
        self.get_node@
    }

    /// A node waits under `handle`, dead or alive.
    pub open spec fn waits(self, handle: int) -> bool {
        0 <= handle < self.nodes@.len() && self.nodes@[handle] is Some
    }

    /// A node waits under `handle` and is not dead.
    pub open spec fn live(self, handle: int) -> bool {
        self.waits(handle) && !self.nodes@[handle]->0.dead
    }

    /// The backend holds the handles of the filled slots, each under the key
    /// of its node; every waiting node is well formed; and the index holds
    /// the live nodes, each under its state. So no two live nodes wait for
    /// one state.
    pub open spec fn wf(self) -> bool {
        &&& self.collection.inv()
        &&& self.collection.keys().dom().finite()
        &&& forall|handle: usize| #[trigger]
            self.collection.keys().dom().contains(handle) <==> self.waits(handle as int)
        &&& forall|handle: usize| #[trigger]
            self.waits(handle as int) ==> {
                &&& self.nodes@[handle as int]->0.wf()
                &&& self.collection.keys()[handle] == Backend::key_of(
                    self.nodes@[handle as int]->0.total_cost,
                    self.nodes@[handle as int]->0.heuristic,
                )
            }
        &&& forall|state: P::State| #[trigger]
            self.get_node@.contains_key(state) ==> {
                &&& self.live(self.get_node@[state] as int)
                &&& self.nodes@[self.get_node@[state] as int]->0.state == state
            }
        &&& forall|handle: usize| #[trigger]
            self.live(handle as int) ==> {
                &&& self.get_node@.contains_key(self.nodes@[handle as int]->0.state)
                &&& self.get_node@[self.nodes@[handle as int]->0.state] == handle
            }
    }
}

impl<'a, P: Utility, Backend: FrontierBackend> Frontier<'a, P, Backend> where
    P::State: Eq + Hash + Clone,
 {
    /// A frontier in which nothing waits.
    pub fn new() -> (frontier: Self)
        ensures
            frontier.wf(),
            frontier.entries() == Seq::<Option<Node<'a, P>>>::empty(),
            frontier.index() == Map::<P::State, usize>::empty(),
    {
        let frontier = Self {
            collection: Backend::empty(),
            nodes: Vec::new(),
            get_node: HashMap::new(),
        };
        assert(frontier.collection.keys().dom() =~= Set::<usize>::empty());
        frontier
    }

    /// Forgets every node; handles start again at 0.
    pub fn reset(&mut self)
        ensures
            final(self).wf(),
            final(self).entries() == Seq::<Option<Node<'a, P>>>::empty(),
            final(self).index() == Map::<P::State, usize>::empty(),
    {
        self.collection.reset();
        self.nodes.clear();
        self.get_node.clear();
        assert(self.collection.keys().dom() =~= Set::<usize>::empty());
    }

    /// The number of live nodes that wait. Dead nodes that have not had
    /// their turn yet are not counted.
    pub fn size(&self) -> (size: usize)
        requires
            obeys_key_model::<P::State>(),
        ensures
            size == self.index().len(),
    {
        self.get_node.len()
    }

    /// Takes `item` in, unless a live node waits for its state at a cost
    /// that is no higher. Where a live node waits at a higher cost, that
    /// node is marked dead and dropped from the index, but stays in the
    /// backend until its turn comes. Whether `item` was taken in.
    pub fn enqueue_or_replace(&mut self, item: Node<'a, P>) -> (inserted: bool)
        requires
            old(self).wf(),
            item.wf(),
            !item.dead,
            obeys_key_model::<P::State>(),
            clones_exactly::<P::State>(),
        ensures
            final(self).wf(),
            inserted == !old(self).rejects(item),
            !inserted ==> final(self).entries() == old(self).entries() && final(self).index()
                == old(self).index() && final(self).collection == old(self).collection,
            inserted ==> final(self).entries() == old(self).superseding(item.state).push(
                Some(item),
            ) && final(self).index() == old(self).index().insert(
                item.state,
                old(self).entries().len() as usize,
            ),
            final(self)@ == old(self)@.offer(item),
    {
        let found: Option<usize> = match self.get_node.get(item.get_state()) {
            Some(handle) => Some(*handle),
            None => None,
        };
        if let Some(handle) = found {
            assert(self.live(handle as int));
            let cheaper = match &self.nodes[handle] {
                Some(old_node) => old_node.get_g_cost() > item.get_g_cost(),
                None => false,
            };
            if !cheaper {
                return false;
            }
            match &mut self.nodes[handle] {
                Some(old_node) => {
                    old_node.mark_dead();
                },
                None => {},
            }
            assert(self.nodes@ == old(self).superseding(item.state));
        }
        let ghost marked = self.nodes@;
        let ghost target: int = match found {
            Some(handle) => handle as int,
            None => -1,
        };
        assert(marked == old(self).superseding(item.state));
        assert(marked.len() == old(self).nodes@.len());
        assert forall|h: int| 0 <= h < marked.len() implies (marked[h] is Some <==> old(
            self,
        ).nodes@[h] is Some) by {}
        assert forall|h: int| 0 <= h < marked.len() && marked[h] is Some implies {
            &&& marked[h]->0.state == old(self).nodes@[h]->0.state
            &&& marked[h]->0.total_cost == old(self).nodes@[h]->0.total_cost
            &&& marked[h]->0.heuristic == old(self).nodes@[h]->0.heuristic
            &&& marked[h]->0.depth == old(self).nodes@[h]->0.depth
            &&& marked[h]->0.parent == old(self).nodes@[h]->0.parent
            &&& marked[h]->0.action == old(self).nodes@[h]->0.action
            &&& h != target ==> marked[h] == old(self).nodes@[h]
            &&& h == target ==> marked[h]->0.dead
        } by {}
        let state = item.get_state().clone();
        assert(cloned::<P::State>(item.state, state));
        let handle = self.nodes.len();
        assert forall|waiting: usize| self.collection.keys().dom().contains(waiting) implies waiting
            < handle by {
            assert(old(self).waits(waiting as int));
        }
        self.collection.enqueue(handle, &item);
        self.nodes.push(Some(item));
        self.get_node.insert(state, handle);
        proof {
            assert(self.nodes@ == marked.push(Some(item)));
            assert forall|h: usize| #[trigger]
                self.collection.keys().dom().contains(h) <==> self.waits(h as int) by {
                if h != handle {
                    assert(old(self).collection.keys().dom().contains(h) <==> old(self).waits(
                        h as int,
                    ));
                }
            }
            assert forall|h: usize| #[trigger] self.waits(h as int) implies {
                &&& self.nodes@[h as int]->0.wf()
                &&& self.collection.keys()[h] == Backend::key_of(
                    self.nodes@[h as int]->0.total_cost,
                    self.nodes@[h as int]->0.heuristic,
                )
            } by {
                if h != handle {
                    assert(old(self).waits(h as int));
                }
            }
            assert forall|s: P::State| #[trigger] self.get_node@.contains_key(s) implies {
                &&& self.live(self.get_node@[s] as int)
                &&& self.nodes@[self.get_node@[s] as int]->0.state == s
            } by {
                if s != item.state {
                    assert(old(self).get_node@.contains_key(s));
                    assert(old(self).live(old(self).get_node@[s] as int));
                }
            }
            assert forall|h: usize| #[trigger] self.live(h as int) implies {
                &&& self.get_node@.contains_key(self.nodes@[h as int]->0.state)
                &&& self.get_node@[self.nodes@[h as int]->0.state] == h
            } by {
                if h != handle {
                    assert(old(self).live(h as int));
                }
            }
        }
        true
    }
}

impl<'a, P: Utility, Backend: FrontierBackend> Frontier<'a, P, Backend> where
    P::State: Eq + Hash + Clone,
 {
    /// Withdraws the live node that the backend's rule puts first, and
    /// throws away the dead nodes whose turn comes before it. `None` when
    /// no live node waits; the frontier is then empty of dead ones too.
    pub fn dequeue(&mut self) -> (node: Option<Node<'a, P>>)
        requires
            old(self).wf(),
            obeys_key_model::<P::State>(),
        ensures
            final(self).wf(),
            final(self).thinned_from(*old(self)),
            strict::<Backend>() ==> (node, final(self)@) == old(self)@.withdraw::<Backend>(),
            old(self)@.may_withdraw::<Backend>(node, final(self)@),
            match node {
                Some(first) => {
                    &&& !first.dead
                    &&& old(self).index().contains_key(first.state)
                    &&& old(self).entries()[old(self).index()[first.state] as int] == Some(first)
                    &&& final(self).entries()[old(self).index()[first.state] as int] is None
                    &&& final(self).index() == old(self).index().remove(first.state)
                    &&& forall|other: usize| #[trigger]
                        old(self).live(other as int) ==> Backend::precedes(
                            old(self).index()[first.state],
                            Backend::key_of(first.total_cost, first.heuristic),
                            other,
                            Backend::key_of(
                                old(self).entries()[other as int]->0.total_cost,
                                old(self).entries()[other as int]->0.heuristic,
                            ),
                        )
                    &&& forall|other: usize| #[trigger]
                        old(self).live(other as int) && other != old(self).index()[first.state]
                            ==> final(self).entries()[other as int] == old(
                            self,
                        ).entries()[other as int]
                },
                None => {
                    &&& old(self).index() == Map::<P::State, usize>::empty()
                    &&& final(self).index() == Map::<P::State, usize>::empty()
                    &&& forall|handle: usize| !final(self).waits(handle as int)
                },
            },
    {
        loop
            invariant
                self.wf(),
                obeys_key_model::<P::State>(),
                self.index() == old(self).index(),
                self.thinned_from(*old(self)),
                strict::<Backend>() ==> old(self)@.withdraw::<Backend>() == self@.withdraw::<
                    Backend,
                >(),
                forall|taken: Option<Node<'a, P>>, rest: Waiting<'a, P>| #[trigger]
                    self@.may_withdraw::<Backend>(taken, rest) ==> old(self)@.may_withdraw::<
                        Backend,
                    >(taken, rest),
                forall|other: usize| #[trigger]
                    old(self).live(other as int) ==> self.nodes@[other as int] == old(
                        self,
                    ).nodes@[other as int],
            decreases self.collection.keys().dom().len(),
        {
            let ghost before = *self;
            match self.collection.dequeue() {
                None => {
                    proof {
                        assert forall|handle: usize| !self.waits(handle as int) by {
                            assert(!self.collection.keys().dom().contains(handle));
                        }
                        assert forall|state: P::State| !self.get_node@.contains_key(state) by {
                            if self.get_node@.contains_key(state) {
                                assert(self.live(self.get_node@[state] as int));
                            }
                        }
                        assert(self.get_node@ =~= Map::<P::State, usize>::empty());
                        assert forall|handle: usize| !self@.waits(handle as int) by {
                            assert(!self.waits(handle as int));
                        }
                        self@.lemma_withdraw_none::<Backend>();
                        assert(self@ == before@);
                        assert forall|handle: usize| !before@.leads::<Backend>(handle) by {
                            assert(!before@.waits(handle as int));
                        }
                        assert(before@.may_withdraw::<Backend>(None, before@));
                    }
                    return None;
                },
                Some(handle) => {
                    assert(before.waits(handle as int));
                    proof {
                        assert forall|other: usize| #[trigger]
                            before@.waits(other as int) implies Backend::precedes(
                            handle,
                            before@.key::<Backend>(handle),
                            other,
                            before@.key::<Backend>(other),
                        ) by {
                            assert(before.waits(other as int));
                            assert(before.collection.keys().dom().contains(other));
                        }
                        assert(before@.leads::<Backend>(handle));
                        if strict::<Backend>() {
                            before@.lemma_withdraw_step::<Backend>(handle);
                        }
                    }
                    let taken = self.nodes[handle].take();
                    assert(self.nodes@ == before.nodes@.update(handle as int, None));
                    assert(self@ == before@.without(handle));
                    proof {
                        if before.nodes@[handle as int]->0.dead {
                            assert forall|taken: Option<Node<'a, P>>, rest: Waiting<'a, P>|
                                #[trigger]
                                self@.may_withdraw::<Backend>(taken, rest) implies old(
                                self,
                            )@.may_withdraw::<Backend>(taken, rest) by {
                                assert(before@.may_withdraw_at::<Backend>(handle, taken, rest));
                                assert(before@.may_withdraw::<Backend>(taken, rest));
                            }
                        }
                    }
                    match taken {
                        Some(node) => {
                            if !node.is_dead() {
                                assert(before.live(handle as int));
                                let _ = self.get_node.remove(node.get_state());
                                proof {
                                    assert(before.get_node@[node.state] == handle);
                                    before.lemma_departure_keeps_order(*self, handle);
                                    assert forall|other: usize| #[trigger]
                                        old(self).live(other as int) implies Backend::precedes(
                                        handle,
                                        Backend::key_of(node.total_cost, node.heuristic),
                                        other,
                                        Backend::key_of(
                                            old(self).entries()[other as int]->0.total_cost,
                                            old(self).entries()[other as int]->0.heuristic,
                                        ),
                                    ) by {
                                        assert(before.waits(other as int));
                                        assert(before.collection.keys().dom().contains(other));
                                    }
                                }
                                proof {
                                    assert(before@.may_withdraw_at::<Backend>(
                                        handle,
                                        Some(node),
                                        self@,
                                    ));
                                    assert(before@.may_withdraw::<Backend>(Some(node), self@));
                                }
                                return Some(node);
                            }
                        },
                        None => {},
                    }
                    proof {
                        assert(!before.live(handle as int));
                        before.lemma_departure_keeps_order(*self, handle);
                    }
                },
            }
        }
    }
}

impl<'a, P: Utility, Backend: FrontierBackend> Frontier<'a, P, Backend> {
    /// The nodes wait in tiers above the depth `base`, where every step
    /// costs `cost`: none is dead, each is `base` deep or one deeper and
    /// costs `cost` for each of its actions, and none is less deep than a
    /// node that came before it.
    pub open spec fn tiered_above(self, base: int, cost: int) -> bool {
        &&& forall|handle: usize| #[trigger] self.waits(handle as int) ==> self.live(handle as int)
        &&& forall|handle: usize| #[trigger]
            self.live(handle as int) ==> base <= self.nodes@[handle as int]->0.depth <= base + 1
                && self.nodes@[handle as int]->0.total_cost == cost
                * self.nodes@[handle as int]->0.depth
        &&& forall|first: usize, second: usize|
            #![trigger self.live(first as int), self.live(second as int)]
            self.live(first as int) && self.live(second as int) && first <= second
                ==> self.nodes@[first as int]->0.depth <= self.nodes@[second as int]->0.depth
    }

    /// The nodes wait in tiers above the least deep of them.
    pub open spec fn tiered(self, cost: int) -> bool {
        &&& forall|handle: usize| #[trigger] self.waits(handle as int) ==> self.live(handle as int)
        &&& forall|handle: usize| #[trigger]
            self.live(handle as int) ==> self.nodes@[handle as int]->0.total_cost == cost
                * self.nodes@[handle as int]->0.depth
        &&& forall|first: usize, second: usize|
            #![trigger self.live(first as int), self.live(second as int)]
            self.live(first as int) && self.live(second as int) && first <= second ==> {
                &&& self.nodes@[first as int]->0.depth <= self.nodes@[second as int]->0.depth
                &&& self.nodes@[second as int]->0.depth <= self.nodes@[first as int]->0.depth + 1
            }
    }

    /// Every node of `before` waits here as it did there, under its handle
    /// and in the index: no node has left, and none was superseded.
    pub open spec fn extends(self, before: Self) -> bool {
        &&& before.nodes@.len() <= self.nodes@.len()
        &&& forall|handle: int|
            0 <= handle < before.nodes@.len() ==> #[trigger] self.nodes@[handle]
                == before.nodes@[handle]
        &&& forall|state: P::State| #[trigger]
            before.get_node@.contains_key(state) ==> self.get_node@.contains_key(state)
                && self.get_node@[state] == before.get_node@[state]
    }

    /// Offering a frontier that is tiered above `base` a node of the next
    /// depth leaves it tiered, and supersedes no node: a node that waits for
    /// the same state is no deeper, and so costs no more.
    pub proof fn lemma_offer_keeps_tiers(self, after: Self, item: Node<'a, P>, base: int, cost: int)
        requires
            self.wf(),
            self.nodes@.len() <= usize::MAX,
            self.tiered_above(base, cost),
            item.depth == base + 1,
            item.total_cost == cost * (base + 1),
            0 <= cost,
            !item.dead,
            after@ == self@.offer(item),
        ensures
            after.tiered_above(base, cost),
            after.extends(self),
    {
        let count = self.nodes@.len();
        if self.get_node@.contains_key(item.state) {
            let handle = self.get_node@[item.state];
            assert(self.live(handle as int));
            let depth = self.nodes@[handle as int]->0.depth;
            assert(cost * depth <= cost * (base + 1)) by (nonlinear_arith)
                requires
                    0 <= cost,
                    depth <= base + 1,
            ;
            assert(self@.rejects(item));
        }
        if !self@.rejects(item) {
            assert(self@.superseding(item.state) == self.nodes@);
            assert(after.nodes@ == self.nodes@.push(Some(item)));
            assert forall|handle: usize| #[trigger] after.waits(handle as int) implies after.live(
                handle as int,
            ) by {
                if handle < count {
                    assert(self.waits(handle as int));
                }
            }
            assert forall|handle: usize| #[trigger] after.live(handle as int) implies base
                <= after.nodes@[handle as int]->0.depth <= base + 1
                && after.nodes@[handle as int]->0.total_cost == cost
                * after.nodes@[handle as int]->0.depth by {
                if handle < count {
                    assert(self.live(handle as int));
                }
            }
            assert forall|first: usize, second: usize|
                #![trigger after.live(first as int), after.live(second as int)]
                after.live(first as int) && after.live(second as int) && first
                    <= second implies after.nodes@[first as int]->0.depth
                <= after.nodes@[second as int]->0.depth by {
                if first < count {
                    assert(self.live(first as int));
                }
                if second < count {
                    assert(self.live(second as int));
                }
            }
        } else {
            assert(after.nodes@ == self.nodes@);
            assert forall|handle: usize| #[trigger] after.waits(handle as int) implies after.live(
                handle as int,
            ) by {
                assert(self.waits(handle as int));
            }
            assert forall|handle: usize| #[trigger] after.live(handle as int) implies base
                <= after.nodes@[handle as int]->0.depth <= base + 1
                && after.nodes@[handle as int]->0.total_cost == cost
                * after.nodes@[handle as int]->0.depth by {
                assert(self.live(handle as int));
            }
            assert forall|first: usize, second: usize|
                #![trigger after.live(first as int), after.live(second as int)]
                after.live(first as int) && after.live(second as int) && first
                    <= second implies after.nodes@[first as int]->0.depth
                <= after.nodes@[second as int]->0.depth by {
                assert(self.live(first as int));
                assert(self.live(second as int));
            }
        }
    }

    /// Once the first of its nodes has left, a tiered frontier is tiered
    /// above the depth of that node.
    pub proof fn lemma_withdrawal_keeps_tiers(self, after: Self, handle: usize, cost: int)
        requires
            self.tiered(cost),
            self.live(handle as int),
            forall|other: usize| #[trigger] self.live(other as int) ==> handle <= other,
            after.thinned_from(self),
            after.nodes@[handle as int] is None,
            forall|other: usize| #[trigger]
                self.live(other as int) && other != handle ==> after.nodes@[other as int]
                    == self.nodes@[other as int],
        ensures
            after.tiered_above(self.nodes@[handle as int]->0.depth as int, cost),
    {
        assert forall|other: usize| #[trigger] after.waits(other as int) implies after.live(
            other as int,
        ) && self.live(other as int) by {
            assert(self.waits(other as int));
            assert(self.live(other as int));
        }
        assert forall|other: usize| #[trigger]
            after.live(other as int) implies self.nodes@[handle as int]->0.depth
            <= after.nodes@[other as int]->0.depth <= self.nodes@[handle as int]->0.depth + 1
            && after.nodes@[other as int]->0.total_cost == cost
            * after.nodes@[other as int]->0.depth by {
            assert(after.waits(other as int));
            assert(self.live(other as int));
            assert(self.live(handle as int) && self.live(other as int));
        }
        assert forall|first: usize, second: usize|
            #![trigger after.live(first as int), after.live(second as int)]
            after.live(first as int) && after.live(second as int) && first
                <= second implies after.nodes@[first as int]->0.depth
            <= after.nodes@[second as int]->0.depth by {
            assert(after.waits(first as int));
            assert(after.waits(second as int));
            assert(self.live(first as int) && self.live(second as int));
        }
    }

    /// Tombstones leave one live node for a state at most: two live nodes
    /// for one state are one node.
    pub proof fn lemma_one_live_node(self, first: usize, second: usize)
        requires
            self.wf(),
            self.live(first as int),
            self.live(second as int),
            self.nodes@[first as int]->0.state == self.nodes@[second as int]->0.state,
        ensures
            first == second,
    {
    }

    /// A frontier from which the node under `handle` has left, the backend
    /// and the slots without the handle and the index without the node if it
    /// was live, is in order as it was.
    pub proof fn lemma_departure_keeps_order(self, after: Self, handle: usize)
        requires
            self.wf(),
            self.waits(handle as int),
            after.collection.inv(),
            after.collection.keys() == self.collection.keys().remove(handle),
            after.nodes@ == self.nodes@.update(handle as int, None),
            after.get_node@ == if self.live(handle as int) {
                self.get_node@.remove(self.nodes@[handle as int]->0.state)
            } else {
                self.get_node@
            },
        ensures
            after.wf(),
    {
        assert forall|h: usize| #[trigger]
            after.collection.keys().dom().contains(h) <==> after.waits(h as int) by {
            assert(self.collection.keys().dom().contains(h) <==> self.waits(h as int));
        }
        assert forall|h: usize| #[trigger] after.waits(h as int) implies {
            &&& after.nodes@[h as int]->0.wf()
            &&& after.collection.keys()[h] == Backend::key_of(
                after.nodes@[h as int]->0.total_cost,
                after.nodes@[h as int]->0.heuristic,
            )
        } by {
            assert(self.waits(h as int));
        }
        assert forall|s: P::State| #[trigger] after.get_node@.contains_key(s) implies {
            &&& after.live(after.get_node@[s] as int)
            &&& after.nodes@[after.get_node@[s] as int]->0.state == s
        } by {
            assert(self.get_node@.contains_key(s));
            assert(self.live(self.get_node@[s] as int));
        }
        assert forall|h: usize| #[trigger] after.live(h as int) implies {
            &&& after.get_node@.contains_key(after.nodes@[h as int]->0.state)
            &&& after.get_node@[after.nodes@[h as int]->0.state] == h
        } by {
            assert(self.live(h as int));
        }
    }

    /// This frontier has the slots of `before`, but that some of its nodes
    /// have left.
    pub open spec fn thinned_from(self, before: Self) -> bool {
        &&& self.nodes@.len() == before.nodes@.len()
        &&& forall|handle: int|
            0 <= handle < self.nodes@.len() ==> #[trigger] self.nodes@[handle] is None
                || self.nodes@[handle] == before.nodes@[handle]
    }

    /// A live node waits for the state of `item` at a cost no higher than
    /// that of `item`.
    pub open spec fn rejects(self, item: Node<'a, P>) -> bool {
        &&& self.get_node@.contains_key(item.state)
        &&& self.nodes@[self.get_node@[item.state] as int]->0.total_cost <= item.total_cost
    }

    /// The slots once the live node that waits for `state`, if there is
    /// one, is marked dead.
    pub open spec fn superseding(self, state: P::State) -> Seq<Option<Node<'a, P>>> {
        if self.get_node@.contains_key(state) {
            let handle = self.get_node@[state] as int;
            self.nodes@.update(handle, Some(self.nodes@[handle]->0.tombstoned()))
        } else {
            self.nodes@
        }
    }
}

} // verus!
