//! Tree search: every successor is a node of its own, whether or not its
//! state was seen before. Nothing is remembered as expanded and no node
//! supersedes another.
use vstd::prelude::*;
use bumpalo::Bump;
use crate::backend::{
    AStarBackend, BestFirstBackend, DequeBackend, FrontierBackend, MinCostBackend, StackBackend,
};
use crate::clock::{elapsed, now};
use crate::explorer::{
    agrees, attempted, child_of, hindered, records, within, InnerResult, Round, SearchResult,
};
use crate::model::{
    child, lemma_sprout, occupied, reports, sprout, strict, tree_attempt, tree_deepen,
    tree_may_attempt, tree_may_deepen, tree_may_round, tree_may_run, tree_round, tree_run,
    tree_settle, Ending, Turn, Waiting,
};
use crate::node::{lemma_cost_limit, place, Node};
use crate::optimal::{tree_finds_cheapest, tree_setting};
use crate::problem::{
    clones_exactly, estimates, judges, leads, lemma_plan_prefix, lemma_plan_unique, lists,
    cheapest, offers, plan_costs, plan_reaches, shallowest, step, transition, unsolvable,
    unsolvable_within, StateExplorerProblem, Utility,
};

verus! {

/// A tree search over `problem`. The nodes that wait are kept in the slots
/// of `nodes`, by handle, and `frontier` holds the handles of the filled
/// slots; the nodes that were expanded live in `arena`.
pub struct TreeExplorer<'a, P: StateExplorerProblem, Backend: FrontierBackend> {
    pub problem: &'a P,
    pub frontier: Backend,
    pub nodes: Vec<Option<Node<'a, P>>>,
    pub arena: &'a Bump,
    /// Whether the last search gave up: it found nothing, and had not
    /// tried all that it could reach.
    pub stalled: bool,
}

impl<'a, P: StateExplorerProblem, Backend: FrontierBackend> TreeExplorer<'a, P, Backend> {
    /// A node waits under `handle`.
    pub open spec fn waits(self, handle: int) -> bool {
        0 <= handle < self.nodes@.len() && self.nodes@[handle] is Some
    }

    /// The backend holds the handles of the filled slots, each under the
    /// key of its node, and every waiting node is well formed and not dead.
    pub open spec fn wf(self) -> bool {
        &&& self.frontier.inv()
        &&& self.frontier.keys().dom().finite()
        &&& forall|handle: usize| #[trigger]
            self.frontier.keys().dom().contains(handle) <==> self.waits(handle as int)
        &&& forall|handle: usize| #[trigger]
            self.waits(handle as int) ==> {
                &&& self.nodes@[handle as int]->0.wf()
                &&& !self.nodes@[handle as int]->0.dead
                &&& self.frontier.keys()[handle] == Backend::key_of(
                    self.nodes@[handle as int]->0.total_cost,
                    self.nodes@[handle as int]->0.heuristic,
                )
            }
    }

    /// The explorer is in order, and every node that waits records a run of
    /// the problem from `init` under the bound `lim`.
    pub open spec fn tracks(self, init: P::State, lim: Option<usize>) -> bool {
        &&& self.wf()
        &&& forall|handle: usize| #[trigger]
            self.waits(handle as int) ==> records(
                self.problem,
                self.nodes@[handle as int]->0,
                init,
                lim,
            )
    }

    /// Problem and arena are those of `before`.
    pub open spec fn same_setting(self, before: Self) -> bool {
        self.problem == before.problem && self.arena == before.arena
    }

    /// A node waits whose plan is the beginning of `plan`.
    pub open spec fn pending(self, plan: Seq<P::Action>) -> bool {
        exists|handle: usize|
            self.waits(handle as int) && #[trigger] self.nodes@[handle as int]->0.plan().len()
                <= plan.len() && plan.take(self.nodes@[handle as int]->0.plan().len() as int)
                == self.nodes@[handle as int]->0.plan()
    }

    /// The search has lost no plan: of every plan from `init` that respects
    /// the bound, the end is not suitable, or a node waits whose plan is the
    /// beginning of it.
    pub open spec fn thorough(self, init: P::State, lim: Option<usize>) -> bool {
        forall|plan: Seq<P::Action>, end: P::State, total: int| #[trigger]
            plan_costs(self.problem, init, plan, end, total) && (lim matches Some(bound)
                ==> plan.len() <= bound) ==> !judges(self.problem, end, true) || self.pending(
                plan,
            )
    }

    /// A round that deals with the node under `handle`, which is not
    /// suitable, loses no plan: where the node lies above the bound, a node
    /// waits afterwards for each of its successors.
    pub proof fn lemma_round_keeps_thorough(
        self,
        after: Self,
        init: P::State,
        lim: Option<usize>,
        handle: usize,
    )
        requires
            self.tracks(init, lim),
            self.thorough(init, lim),
            self.waits(handle as int),
            after.problem == self.problem,
            judges(self.problem, self.nodes@[handle as int]->0.state, false),
            within(lim, self.nodes@[handle as int]->0.depth) ==> after.nodes@ == sprout(
                self.nodes@.update(handle as int, None),
                self.problem,
                &self.nodes@[handle as int]->0,
                self.problem.actions(self.nodes@[handle as int]->0.state),
            ),
            !within(lim, self.nodes@[handle as int]->0.depth) ==> after.nodes@
                == self.nodes@.update(handle as int, None),
        ensures
            after.thorough(init, lim),
    {
        let node = self.nodes@[handle as int]->0;
        let rest = self.nodes@.update(handle as int, None);
        let actions = self.problem.actions(node.state);
        lemma_sprout(rest, self.problem, &node, actions);
        assert(records(self.problem, node, init, lim));
        node.lemma_plan_reaches(self.problem);
        assert forall|plan: Seq<P::Action>, end: P::State, total: int| #[trigger]
            plan_costs(after.problem, init, plan, end, total) && (lim matches Some(bound)
                ==> plan.len() <= bound) && judges(
                after.problem,
                end,
                true,
            ) implies after.pending(plan) by {
            assert(self.pending(plan));
            let other = choose|other: usize|
                self.waits(other as int) && #[trigger] self.nodes@[other as int]->0.plan().len()
                    <= plan.len() && plan.take(self.nodes@[other as int]->0.plan().len() as int)
                    == self.nodes@[other as int]->0.plan();
            if other != handle {
                assert(after.nodes@[other as int] == self.nodes@[other as int]);
                assert(after.waits(other as int));
                assert(after.nodes@[other as int]->0.plan().len() <= plan.len());
            } else {
                let count = node.plan().len() as int;
                lemma_plan_prefix(self.problem, init, plan, end, total, count);
                let (mid, paid) = choose|mid: P::State, paid: int|
                    0 <= paid <= total && #[trigger] plan_costs(
                        self.problem,
                        init,
                        plan.take(count),
                        mid,
                        paid,
                    ) && plan_costs(self.problem, mid, plan.skip(count), end, total - paid);
                lemma_plan_unique(
                    self.problem,
                    init,
                    node.plan(),
                    mid,
                    paid,
                    node.state,
                    node.total_cost - node.origin_cost(),
                );
                if count == plan.len() {
                    assert(plan.skip(count) == Seq::<P::Action>::empty());
                    assert(end == node.state);
                    assert(false);
                } else {
                    assert(within(lim, node.depth));
                    lemma_plan_prefix(self.problem, init, plan, end, total, count + 1);
                    let (next, more) = choose|next: P::State, more: int|
                        0 <= more <= total && #[trigger] plan_costs(
                            self.problem,
                            init,
                            plan.take(count + 1),
                            next,
                            more,
                        ) && plan_costs(
                            self.problem,
                            next,
                            plan.skip(count + 1),
                            end,
                            total - more,
                        );
                    let longer = plan.take(count + 1);
                    assert(longer.drop_last() == plan.take(count));
                    assert(longer.last() == plan[count]);
                    let (before, cost) = choose|before: P::State, cost: u64|
                        #![trigger step(self.problem, before, longer.last(), next, cost)]
                        plan_reaches(self.problem, init, longer.drop_last(), before, more - cost)
                            && step(self.problem, before, longer.last(), next, cost);
                    lemma_plan_unique(
                        self.problem,
                        init,
                        node.plan(),
                        before,
                        more - cost,
                        node.state,
                        node.total_cost - node.origin_cost(),
                    );
                    assert(actions.contains(plan[count]));
                    let place = choose|place: int|
                        0 <= place < actions.len() && actions[place] == plan[count];
                    let made = (rest.len() + place) as usize;
                    assert(after.nodes@[rest.len() + place] == Some(
                        child(self.problem, &node, actions[place]),
                    ));
                    assert(after.nodes@.len() <= usize::MAX) by {
                        assert(after.nodes.len() == after.nodes@.len());
                    }
                    assert(after.waits(made as int));
                    assert(after.nodes@[made as int]->0.plan() == node.plan().push(plan[count]));
                    assert(node.plan().push(plan[count]) == plan.take(count + 1));
                    assert(after.nodes@[made as int]->0.plan().len() <= plan.len());
                }
            }
        }
    }

    /// An explorer with the same backend and the same slots is in order
    /// too.
    pub proof fn lemma_flag_keeps_order(self, after: Self)
        requires
            self.wf(),
            after.frontier == self.frontier,
            after.nodes == self.nodes,
        ensures
            after.wf(),
    {
        assert forall|handle: usize| #[trigger]
            after.frontier.keys().dom().contains(handle) <==> after.waits(handle as int) by {
            assert(self.frontier.keys().dom().contains(handle) <==> self.waits(handle as int));
        }
        assert forall|handle: usize| #[trigger] after.waits(handle as int) implies {
            &&& after.nodes@[handle as int]->0.wf()
            &&& !after.nodes@[handle as int]->0.dead
            &&& after.frontier.keys()[handle] == Backend::key_of(
                after.nodes@[handle as int]->0.total_cost,
                after.nodes@[handle as int]->0.heuristic,
            )
        } by {
            assert(self.waits(handle as int));
        }
    }

    /// The slots, with no index: what the backend's rule chooses from.
    pub open spec fn waiting(self) -> Waiting<'a, P> {
        Waiting { entries: self.nodes@, index: Map::empty() }
    }

    /// What a round did with the node that it withdrew from `before`, where
    /// that node waited under `handle`: the backend's rule put it before
    /// every other node. If it was suitable the round reports its state and
    /// its plan. If not, and its depth had reached the bound, no node was
    /// generated.
    pub open spec fn took(
        before: Self,
        after: Self,
        lim: Option<usize>,
        round: Round<P::State, P::Action>,
        handle: usize,
    ) -> bool {
        let node = before.nodes@[handle as int]->0;
        &&& before.waits(handle as int)
        &&& forall|other: usize| #[trigger]
            before.waits(other as int) ==> Backend::precedes(
                handle,
                Backend::key_of(node.total_cost, node.heuristic),
                other,
                Backend::key_of(
                    before.nodes@[other as int]->0.total_cost,
                    before.nodes@[other as int]->0.heuristic,
                ),
            )
        &&& match round {
            Round::Found { state, actions } => {
                &&& state == node.state
                &&& actions@ == node.plan()
                &&& judges(before.problem, node.state, true)
                &&& after.nodes@ == before.nodes@.update(handle as int, None)
            },
            Round::Continued => {
                &&& judges(before.problem, node.state, false)
                &&& !within(lim, node.depth) ==> after.nodes@ == before.nodes@.update(
                    handle as int,
                    None,
                )
            },
            Round::Stalled => {
                &&& judges(before.problem, node.state, false)
                &&& within(lim, node.depth)
                &&& after.nodes@ == before.nodes@.update(handle as int, None)
            },
            Round::Exhausted => false,
        }
    }
}

impl<'a, P: StateExplorerProblem, Backend: FrontierBackend> TreeExplorer<'a, P, Backend> where
    P::State: Clone,
    P::Action: Clone,
 {
    pub fn new(problem: &'a P, arena: &'a Bump) -> (explorer: Self)
        ensures
            explorer.problem == problem,
            explorer.arena == arena,
            explorer.wf(),
            explorer.nodes@.len() == 0,
    {
        let explorer = Self {
            problem,
            frontier: Backend::empty(),
            nodes: Vec::new(),
            arena,
            stalled: false,
        };
        assert(explorer.frontier.keys().dom() =~= Set::<usize>::empty());
        explorer
    }

    /// Forgets every node; handles start again at 0.
    fn reset(&mut self)
        ensures
            final(self).same_setting(*old(self)),
            final(self).stalled == old(self).stalled,
            final(self).wf(),
            final(self).nodes@.len() == 0,
    {
        self.frontier.reset();
        self.nodes.clear();
        assert(self.frontier.keys().dom() =~= Set::<usize>::empty());
    }

    /// Takes `item` in, under the next handle.
    fn enqueue(&mut self, item: Node<'a, P>)
        requires
            old(self).wf(),
            item.wf(),
            !item.dead,
        ensures
            final(self).same_setting(*old(self)),
            final(self).stalled == old(self).stalled,
            final(self).wf(),
            final(self).nodes@ == old(self).nodes@.push(Some(item)),
    {
        let handle = self.nodes.len();
        assert forall|waiting: usize| self.frontier.keys().dom().contains(waiting) implies waiting
            < handle by {
            assert(old(self).waits(waiting as int));
        }
        self.frontier.enqueue(handle, &item);
        self.nodes.push(Some(item));
        proof {
            assert forall|h: usize| #[trigger]
                self.frontier.keys().dom().contains(h) <==> self.waits(h as int) by {
                if h != handle {
                    assert(old(self).frontier.keys().dom().contains(h) <==> old(self).waits(
                        h as int,
                    ));
                }
            }
            assert forall|h: usize| #[trigger] self.waits(h as int) implies {
                &&& self.nodes@[h as int]->0.wf()
                &&& !self.nodes@[h as int]->0.dead
                &&& self.frontier.keys()[h] == Backend::key_of(
                    self.nodes@[h as int]->0.total_cost,
                    self.nodes@[h as int]->0.heuristic,
                )
            } by {
                if h != handle {
                    assert(old(self).waits(h as int));
                }
            }
        }
    }

    /// Withdraws the node that the backend's rule puts first; `None` when
    /// nothing waits.
    fn dequeue(&mut self) -> (withdrawn: Option<(usize, Node<'a, P>)>)
        requires
            old(self).wf(),
        ensures
            final(self).same_setting(*old(self)),
            final(self).stalled == old(self).stalled,
            final(self).wf(),
            match withdrawn {
                Some((handle, node)) => old(self).waiting().leads::<Backend>(handle) && (strict::<
                    Backend,
                >() ==> handle == old(self).waiting().first::<Backend>()),
                None => forall|handle: usize| !old(self).waiting().leads::<Backend>(handle),
            },
            match withdrawn {
                Some((handle, node)) => {
                    &&& old(self).waits(handle as int)
                    &&& old(self).nodes@[handle as int] == Some(node)
                    &&& !node.dead
                    &&& final(self).nodes@ == old(self).nodes@.update(handle as int, None)
                    &&& forall|other: usize| #[trigger]
                        old(self).waits(other as int) ==> Backend::precedes(
                            handle,
                            Backend::key_of(node.total_cost, node.heuristic),
                            other,
                            Backend::key_of(
                                old(self).nodes@[other as int]->0.total_cost,
                                old(self).nodes@[other as int]->0.heuristic,
                            ),
                        )
                },
                None => {
                    &&& old(self).frontier.keys() == Map::<usize, u128>::empty()
                    &&& final(self).nodes@ == old(self).nodes@
                    &&& forall|handle: usize| !old(self).waits(handle as int)
                },
            },
    {
        match self.frontier.dequeue() {
            None => {
                assert forall|handle: usize| !old(self).waits(handle as int) by {
                    assert(!old(self).frontier.keys().dom().contains(handle));
                }
                assert(self.nodes@ == old(self).nodes@);
                assert forall|h: usize| #[trigger]
                    self.frontier.keys().dom().contains(h) <==> self.waits(h as int) by {
                    assert(!old(self).waits(h as int));
                }
                assert forall|h: usize| !#[trigger] self.waits(h as int) by {
                    assert(!old(self).waits(h as int));
                }
                assert forall|h: usize| !old(self).waiting().leads::<Backend>(h) by {
                    assert(!old(self).waits(h as int));
                }
                None
            },
            Some(handle) => {
                assert(old(self).waits(handle as int));
                let taken = self.nodes[handle].take();
                proof {
                    assert(self.nodes@ == old(self).nodes@.update(handle as int, None));
                    assert forall|h: usize| #[trigger]
                        self.frontier.keys().dom().contains(h) <==> self.waits(h as int) by {
                        assert(old(self).frontier.keys().dom().contains(h) <==> old(self).waits(
                            h as int,
                        ));
                    }
                    assert forall|h: usize| #[trigger] self.waits(h as int) implies {
                        &&& self.nodes@[h as int]->0.wf()
                        &&& !self.nodes@[h as int]->0.dead
                        &&& self.frontier.keys()[h] == Backend::key_of(
                            self.nodes@[h as int]->0.total_cost,
                            self.nodes@[h as int]->0.heuristic,
                        )
                    } by {
                        assert(old(self).waits(h as int));
                    }
                    assert forall|other: usize| #[trigger]
                        old(self).waits(other as int) implies Backend::precedes(
                        handle,
                        Backend::key_of(taken->0.total_cost, taken->0.heuristic),
                        other,
                        Backend::key_of(
                            old(self).nodes@[other as int]->0.total_cost,
                            old(self).nodes@[other as int]->0.heuristic,
                        ),
                    ) by {
                        assert(old(self).frontier.keys().dom().contains(other));
                    }
                    assert forall|other: usize| #[trigger]
                        old(self).waiting().waits(other as int) implies Backend::precedes(
                        handle,
                        old(self).waiting().key::<Backend>(handle),
                        other,
                        old(self).waiting().key::<Backend>(other),
                    ) by {
                        assert(old(self).waits(other as int));
                        assert(old(self).frontier.keys().dom().contains(other));
                    }
                    assert(old(self).waiting().leads::<Backend>(handle));
                    if strict::<Backend>() {
                        old(self).waiting().lemma_withdraw_step::<Backend>(handle);
                    }
                }
                match taken {
                    Some(node) => Some((handle, node)),
                    None => None,
                }
            },
        }
    }

    /// Generates the successors of `parent`, a node that was withdrawn and
    /// now lives in the arena: asks the problem for the actions that can be
    /// taken in its state and for what each leads to, and takes in a node
    /// for every successor, in the order of the actions.
    pub fn generate(&mut self, parent: &'a Node<'a, P>)
        requires
            old(self).wf(),
            parent.wf(),
            parent.depth < usize::MAX,
            clones_exactly::<P::Action>(),
        ensures
            final(self).same_setting(*old(self)),
            final(self).stalled == old(self).stalled,
            final(self).wf(),
            final(self).nodes@ == sprout(
                old(self).nodes@,
                old(self).problem,
                parent,
                old(self).problem.actions(parent.state),
            ),
            lists(
                old(self).problem,
                parent.state,
                Seq::new(
                    (final(self).nodes@.len() - old(self).nodes@.len()) as nat,
                    |i: int| final(self).nodes@[old(self).nodes@.len() + i]->0.action->0,
                ),
            ),
            old(self).nodes@.len() <= final(self).nodes@.len(),
            forall|handle: int|
                0 <= handle < old(self).nodes@.len() ==> #[trigger] final(self).nodes@[handle]
                    == old(self).nodes@[handle],
            forall|handle: int|
                old(self).nodes@.len() <= handle < final(self).nodes@.len() ==> child_of(
                    old(self).problem,
                    parent,
                    #[trigger] final(self).nodes@[handle],
                ),
    {
        let ghost node = *parent;
        let ghost count = self.nodes@.len();
        let actions = self.problem.executable_actions(parent.get_state());
        let mut i: usize = 0;
        while i < actions.len()
            invariant
                i <= actions.len(),
                *parent == node,
                node.wf(),
                node.depth < usize::MAX,
                self.wf(),
                self.stalled == old(self).stalled,
                self.nodes@ == sprout(
                    old(self).nodes@,
                    self.problem,
                    parent,
                    actions@.take(i as int),
                ),
                count == old(self).nodes@.len(),
                self.nodes@.len() == count + i,
                forall|handle: int|
                    0 <= handle < count ==> #[trigger] self.nodes@[handle] == old(
                        self,
                    ).nodes@[handle],
                forall|handle: int|
                    count <= handle < count + i ==> child_of(
                        self.problem,
                        parent,
                        #[trigger] self.nodes@[handle],
                    ) && self.nodes@[handle]->0.action == Some(actions@[handle - count]),
                self.same_setting(*old(self)),
                actions@ == self.problem.actions(node.state),
                clones_exactly::<P::Action>(),
            decreases actions.len() - i,
        {
            let action = actions[i].clone();
            assert(cloned::<P::Action>(actions@[i as int], action));
            let (new_state, cost) = self.problem.result(parent.get_state(), &action);
            assert(transition(self.problem, node.state, action, new_state, cost));
            let new_node = Node::new(Some(parent), self.problem, new_state, Some(action), cost);
            proof {
                assert(actions@.contains(action));
                assert(lists(self.problem, node.state, actions@));
                assert(offers(self.problem, node.state, action));
                assert(step(self.problem, node.state, action, new_state, cost));
                assert(actions@.take(i + 1).drop_last() == actions@.take(i as int));
                assert(actions@.take(i + 1).last() == action);
                lemma_cost_limit(node.depth);
                assert(new_node == child(self.problem, parent, action));
            }
            self.enqueue(new_node);
            i += 1;
        }
        proof {
            assert(actions@.take(i as int) == actions@);
            assert(lists(self.problem, node.state, actions@));
            assert(Seq::new(
                (self.nodes@.len() - count) as nat,
                |i: int| self.nodes@[count + i]->0.action->0,
            ) =~= actions@);
        }
    }

    /// Deals with `node`, which has just been withdrawn and is not
    /// suitable. If its depth has reached the bound it is not expanded, and
    /// nothing changes. Otherwise the node is moved into the arena and its
    /// successors are generated. `false`, with nothing changed, when the
    /// node was to be expanded and could not be: the arena had no room to
    /// keep it, or it is as deep as a node can be.
    pub fn expand(&mut self, node: Node<'a, P>, lim: Option<usize>) -> (room: bool)
        requires
            old(self).wf(),
            node.wf(),
            clones_exactly::<P::Action>(),
        ensures
            final(self).same_setting(*old(self)),
            final(self).stalled == old(self).stalled,
            final(self).wf(),
            !room ==> within(lim, node.depth) && final(self).nodes@ == old(self).nodes@,
            !within(lim, node.depth) ==> room && final(self).nodes@ == old(self).nodes@,
            room && within(lim, node.depth) ==> node.depth < usize::MAX && final(self).nodes@
                == sprout(
                old(self).nodes@,
                old(self).problem,
                &node,
                old(self).problem.actions(node.state),
            ),
            old(self).tracks(node.origin(), lim) && records(
                old(self).problem,
                node,
                node.origin(),
                lim,
            ) ==> final(self).tracks(node.origin(), lim),
    {
        let depth = node.get_depth();
        let open = match lim {
            Some(bound) => bound > depth,
            None => true,
        };
        if open {
            if depth == usize::MAX {
                return false;
            }
            match place(self.arena, node) {
                None => {
                    return false;
                },
                Some(parent) => {
                    let ghost before = *self;
                    self.generate(parent);
                    proof {
                        let init = node.origin();
                        if before.tracks(init, lim) && records(before.problem, node, init, lim) {
                            assert forall|handle: usize| #[trigger]
                                self.waits(handle as int) implies records(
                                self.problem,
                                self.nodes@[handle as int]->0,
                                init,
                                lim,
                            ) by {
                                if handle < before.nodes@.len() {
                                    assert(self.nodes@[handle as int]
                                        == before.nodes@[handle as int]);
                                    assert(before.waits(handle as int));
                                } else {
                                    let child = self.nodes@[handle as int]->0;
                                    assert(child_of(
                                        before.problem,
                                        parent,
                                        self.nodes@[handle as int],
                                    ));
                                    assert(child.parent == Some(parent));
                                    assert(child.follows(self.problem));
                                    assert(child.origin() == init);
                                    assert(child.origin_cost() == 0);
                                }
                            }
                        }
                    }
                },
            }
        }
        true
    }

    /// One round of the search: withdraws the node that the backend puts
    /// first, and either finds it suitable or expands it under the bound
    /// `lim`.
    pub fn advance(&mut self, lim: Option<usize>) -> (round: Round<P::State, P::Action>)
        requires
            old(self).wf(),
            clones_exactly::<P::State>(),
            clones_exactly::<P::Action>(),
        ensures
            final(self).same_setting(*old(self)),
            final(self).stalled == old(self).stalled,
            final(self).wf(),
            strict::<Backend>() && !(round is Stalled) ==> agrees(
                round,
                tree_round::<P, Backend>(old(self).nodes@, old(self).problem, lim).0,
            ) && final(self).nodes@ == tree_round::<P, Backend>(
                old(self).nodes@,
                old(self).problem,
                lim,
            ).1,
            forall|init: P::State| #[trigger]
                old(self).tracks(init, lim) && round is Found ==> exists|handle: usize|
                    {
                        &&& Self::took(*old(self), *final(self), lim, round, handle)
                        &&& #[trigger] plan_costs(
                            old(self).problem,
                            init,
                            old(self).nodes@[handle as int]->0.plan(),
                            old(self).nodes@[handle as int]->0.state,
                            old(self).nodes@[handle as int]->0.total_cost as int,
                        )
                        &&& old(self).nodes@[handle as int]->0.plan().len() == old(
                            self,
                        ).nodes@[handle as int]->0.depth
                    },
            !(round is Stalled) ==> exists|turn: Turn<'a, P>|
                agrees(round, turn) && #[trigger] tree_may_round::<P, Backend>(
                    old(self).nodes@,
                    old(self).problem,
                    lim,
                    turn,
                    final(self).nodes@,
                ),
            round is Exhausted <==> old(self).frontier.keys() == Map::<usize, u128>::empty(),
            round is Exhausted ==> final(self).nodes@ == old(self).nodes@,
            forall|init: P::State| #[trigger]
                old(self).thorough(init, lim) && old(self).tracks(init, lim) ==> {
                    &&& round is Continued ==> final(self).thorough(init, lim)
                    &&& round is Exhausted ==> unsolvable_within(old(self).problem, init, lim)
                },
            forall|init: P::State, informed: bool| #[trigger]
                old(self).primed(init, informed) && lim is None ==> (round matches Round::Found {
                    state,
                    actions,
                } ==> cheapest(old(self).problem, init, actions@, state)),
            !(round is Exhausted) ==> exists|handle: usize|
                Self::took(*old(self), *final(self), lim, round, handle),
            forall|init: P::State| #[trigger]
                old(self).tracks(init, lim) ==> {
                    &&& final(self).tracks(init, lim)
                    &&& round matches Round::Found { state, actions } ==> {
                        &&& lim matches Some(bound) ==> actions@.len() <= bound
                        &&& leads(old(self).problem, init, actions@, state)
                    }
                },
    {
        let ghost before = *self;
        match self.dequeue() {
            None => {
                assert forall|init: P::State| #[trigger] before.tracks(init, lim) implies self.tracks(
                    init,
                    lim,
                ) by {
                    assert forall|h: usize| #[trigger] self.waits(h as int) implies records(
                        self.problem,
                        self.nodes@[h as int]->0,
                        init,
                        lim,
                    ) by {
                        assert(before.waits(h as int));
                    }
                }
                proof {
                    assert(before.waiting() == (Waiting::<P> {
                        entries: before.nodes@,
                        index: Map::empty(),
                    }));
                    assert(tree_may_round::<P, Backend>(
                        before.nodes@,
                        before.problem,
                        lim,
                        Turn::<P>::Exhausted,
                        self.nodes@,
                    ));
                    if strict::<Backend>() {
                        assert(tree_round::<P, Backend>(before.nodes@, before.problem, lim) == (
                            Turn::<P>::Exhausted,
                            before.nodes@,
                        ));
                    }
                    assert forall|init: P::State| #[trigger]
                        before.thorough(init, lim) && before.tracks(
                            init,
                            lim,
                        ) implies unsolvable_within(before.problem, init, lim) by {
                        assert forall|plan: Seq<P::Action>, end: P::State, total: int| #[trigger]
                            plan_costs(before.problem, init, plan, end, total) && (lim matches Some(
                                bound,
                            ) ==> plan.len() <= bound) implies !judges(
                            before.problem,
                            end,
                            true,
                        ) by {
                            assert(!before.pending(plan));
                        }
                    }
                }
                Round::Exhausted
            },
            Some((handle, node)) => {
                let ghost thinned = *self;
                let ghost turn = tree_round::<P, Backend>(before.nodes@, before.problem, lim);
                let ghost settled = tree_settle(before.nodes@, before.problem, lim, handle);
                proof {
                    assert(before.waiting() == (Waiting::<P> {
                        entries: before.nodes@,
                        index: Map::empty(),
                    }));
                    assert(before.waiting().leads::<Backend>(handle));
                    assert(thinned.nodes@ == before.nodes@.update(handle as int, None));
                    if strict::<Backend>() {
                        assert(before.waiting().first::<Backend>() == handle);
                    }
                    assert(before.frontier.keys().dom().contains(handle));
                    assert(node.wf());
                    assert forall|init: P::State| #[trigger] before.tracks(init, lim) implies {
                        &&& thinned.tracks(init, lim)
                        &&& records(before.problem, node, init, lim)
                    } by {
                        assert(before.waits(handle as int));
                        assert forall|h: usize| #[trigger]
                            thinned.waits(h as int) implies records(
                            thinned.problem,
                            thinned.nodes@[h as int]->0,
                            init,
                            lim,
                        ) by {
                            assert(before.waits(h as int));
                        }
                    }
                }
                if self.problem.is_suitable(node.get_state()) {
                    let state = node.get_state().clone();
                    assert(cloned::<P::State>(node.state, state));
                    let actions = node.get_plan();
                    proof {
                        assert forall|init: P::State| #[trigger]
                            before.tracks(init, lim) implies {
                            &&& lim matches Some(bound) ==> actions@.len() <= bound
                            &&& leads(before.problem, init, actions@, state)
                        } by {
                            node.lemma_plan_reaches(before.problem);
                            assert(plan_costs(
                                before.problem,
                                init,
                                actions@,
                                state,
                                node.total_cost - node.origin_cost(),
                            ));
                        }
                    }
                    proof {
                        assert forall|init: P::State, informed: bool| #[trigger]
                            before.primed(init, informed) && lim is None implies cheapest(
                            before.problem,
                            init,
                            actions@,
                            state,
                        ) by {
                            before.lemma_first_is_cheapest(init, informed, handle);
                        }
                    }
                    let round = Round::Found { state, actions };
                    assert(Self::took(before, *self, lim, round, handle));
                    proof {
                        assert forall|init: P::State| #[trigger]
                            before.tracks(init, lim) implies plan_costs(
                            before.problem,
                            init,
                            node.plan(),
                            node.state,
                            node.total_cost as int,
                        ) && node.plan().len() == node.depth by {
                            assert(records(before.problem, node, init, lim));
                            node.lemma_plan_reaches(before.problem);
                        }
                    }
                    assert(strict::<Backend>() ==> turn == (Turn::Found(node), self.nodes@));
                    assert(settled == (Turn::Found(node), self.nodes@));
                    assert(tree_may_round::<P, Backend>(
                        before.nodes@,
                        before.problem,
                        lim,
                        Turn::Found(node),
                        self.nodes@,
                    ));
                    round
                } else {
                    let room = self.expand(node, lim);
                    proof {
                        assert forall|init: P::State| #[trigger]
                            before.tracks(init, lim) implies self.tracks(init, lim) by {
                            assert(thinned.tracks(init, lim) && records(
                                before.problem,
                                node,
                                init,
                                lim,
                            ));
                            assert(node.origin() == init);
                        }
                    }
                    if room {
                        assert(Self::took(before, *self, lim, Round::Continued, handle));
                        assert(strict::<Backend>() ==> turn == (Turn::<P>::Continued, self.nodes@));
                        assert(settled == (Turn::<P>::Continued, self.nodes@));
                        assert(tree_may_round::<P, Backend>(
                            before.nodes@,
                            before.problem,
                            lim,
                            Turn::<P>::Continued,
                            self.nodes@,
                        ));
                        proof {
                            assert forall|init: P::State| #[trigger]
                                before.thorough(init, lim) && before.tracks(
                                    init,
                                    lim,
                                ) implies self.thorough(init, lim) by {
                                before.lemma_round_keeps_thorough(*self, init, lim, handle);
                            }
                        }
                        Round::Continued
                    } else {
                        assert(Self::took(before, *self, lim, Round::Stalled, handle));
                        Round::Stalled
                    }
                }
            },
        }
    }

    /// One attempt: starts over from `init_state`, and takes rounds until
    /// one finds a suitable state, nothing waits, a round stalls, or
    /// `n_iter`, which counts the nodes withdrawn, can count no further.
    pub fn inner_search(
        &mut self,
        n_iter: &mut usize,
        init_state: P::State,
        lim: Option<usize>,
    ) -> (result: InnerResult<P::State, P::Action>)
        requires
            clones_exactly::<P::State>(),
            clones_exactly::<P::Action>(),
        ensures
            final(self).same_setting(*old(self)),
            final(self).wf(),
            attempted(old(self).problem, init_state, lim, result.state, result.actions),
            *old(n_iter) <= *final(n_iter),
            result.actions is Some ==> *old(n_iter) < *final(n_iter),
            *old(n_iter) < usize::MAX && judges(
                old(self).problem,
                init_state,
                true,
            ) ==> result.state == Some(init_state) && result.actions is Some
                && result.actions->0@.len() == 0 && *final(n_iter) == *old(n_iter) + 1,
            result.actions is Some ==> !final(self).stalled,
            strict::<Backend>() && !final(self).stalled ==> reports(
                tree_attempt::<P, Backend>(old(self).problem, init_state, lim, *old(n_iter) as nat),
                result.state,
                result.actions,
                *final(n_iter),
                result.max_frontier_size,
            ),
            !final(self).stalled ==> exists|ending: Ending<'a, P>|
                reports(
                    ending,
                    result.state,
                    result.actions,
                    *final(n_iter),
                    result.max_frontier_size,
                ) && #[trigger] tree_may_attempt::<P, Backend>(
                    old(self).problem,
                    init_state,
                    lim,
                    *old(n_iter) as nat,
                    ending,
                ),
            lim == Some(0usize) && *old(n_iter) < usize::MAX && judges(
                old(self).problem,
                init_state,
                false,
            ) ==> !final(self).stalled && result.actions is None && *final(n_iter) == *old(n_iter)
                + 1 && result.max_frontier_size == 0,
            *old(n_iter) == usize::MAX ==> final(self).stalled && result.actions is None,
            final(self).stalled ==> hindered::<P>(
                old(self).problem,
                init_state,
                lim,
                *old(n_iter),
                *final(n_iter),
            ),
            result.actions is None && !final(self).stalled ==> unsolvable_within(
                old(self).problem,
                init_state,
                lim,
            ) && forall|handle: usize| !final(self).waits(handle as int),
            lim is None && result.actions is Some && tree_finds_cheapest::<P, Backend>(
                old(self).problem,
            ) ==> cheapest(
                old(self).problem,
                init_state,
                result.actions->0@,
                result.state->0,
            ),
    {
        self.stalled = false;
        self.reset();
        let root = Node::new(None, self.problem, init_state, None, 0);
        assert(root == crate::model::root(self.problem, init_state));
        self.enqueue(root);
        assert(self.nodes@ =~= seq![Some(root)]);
        assert(self.tracks(init_state, lim)) by {
            assert forall|handle: usize| #[trigger] self.waits(handle as int) implies records(
                self.problem,
                self.nodes@[handle as int]->0,
                init_state,
                lim,
            ) by {
                assert(handle == 0);
            }
        }
        assert(self.thorough(init_state, lim)) by {
            assert(root.plan() =~= Seq::<P::Action>::empty());
            assert forall|plan: Seq<P::Action>| self.pending(plan) by {
                assert(self.waits(0));
                assert(plan.take(0) =~= Seq::<P::Action>::empty());
                assert(self.nodes@[0]->0.plan().len() <= plan.len());
            }
        }
        let mut max_frontier_size: usize = 0;
        while *n_iter < usize::MAX
            invariant
                self.same_setting(*old(self)),
                !self.stalled,
                self.thorough(init_state, lim),
                forall|ending: Ending<'a, P>| #[trigger]
                    tree_may_run::<P, Backend>(
                        self.nodes@,
                        self.problem,
                        lim,
                        (usize::MAX - *n_iter) as nat,
                        *n_iter as nat,
                        max_frontier_size as nat,
                        ending,
                    ) ==> tree_may_attempt::<P, Backend>(
                        self.problem,
                        init_state,
                        lim,
                        *old(n_iter) as nat,
                        ending,
                    ),
                *n_iter == *old(n_iter) ==> max_frontier_size == 0,
                lim == Some(0usize) && judges(self.problem, init_state, false) && *n_iter > *old(
                    n_iter,
                ) ==> *n_iter == *old(n_iter) + 1 && max_frontier_size == 0 && self.nodes@
                    == seq![None::<Node<'a, P>>],
                strict::<Backend>() ==> tree_attempt::<P, Backend>(
                    self.problem,
                    init_state,
                    lim,
                    *old(n_iter) as nat,
                ) == tree_run::<P, Backend>(
                    self.nodes@,
                    self.problem,
                    lim,
                    (usize::MAX - *n_iter) as nat,
                    *n_iter as nat,
                    max_frontier_size as nat,
                ),
                self.tracks(init_state, lim),
                *n_iter == *old(n_iter) ==> self.nodes@ == seq![Some(root)],
                root.state == init_state,
                root.parent is None,
                judges(self.problem, init_state, true) ==> *n_iter
                    == *old(n_iter),
                *old(n_iter) <= *n_iter,
                clones_exactly::<P::State>(),
                clones_exactly::<P::Action>(),
            decreases usize::MAX - *n_iter,
        {
            let ghost before = *self;
            let ghost fuel = (usize::MAX - *n_iter) as nat;
            let ghost rounds = *n_iter as nat;
            let ghost largest = max_frontier_size as nat;
            let round = self.advance(lim);
            let ghost turn = if round is Stalled {
                Turn::<P>::Stalled
            } else {
                choose|turn: Turn<'a, P>|
                    agrees(round, turn) && #[trigger] tree_may_round::<P, Backend>(
                        before.nodes@,
                        before.problem,
                        lim,
                        turn,
                        self.nodes@,
                    )
            };
            proof {
                assert(before.tracks(init_state, lim));
                if lim is None {
                    if tree_setting::<P, Backend>(self.problem, true) {
                        assert(before.primed(init_state, true));
                    }
                    if tree_setting::<P, Backend>(self.problem, false) {
                        assert(before.primed(init_state, false));
                    }
                }
                if !(round is Exhausted) {
                    let handle = choose|handle: usize|
                        Self::took(before, *self, lim, round, handle);
                    assert(Self::took(before, *self, lim, round, handle));
                    let node = before.nodes@[handle as int]->0;
                    assert(before.waits(handle as int));
                    assert(records(self.problem, node, init_state, lim));
                    if *n_iter == *old(n_iter) {
                        assert(handle == 0);
                        assert(root.plan() =~= Seq::<P::Action>::empty());
                        if lim == Some(0usize) && round is Continued {
                            assert(self.nodes@ =~= seq![None::<Node<'a, P>>]);
                        }
                    } else if lim == Some(0usize) && judges(self.problem, init_state, false) {
                        assert(!before.waits(handle as int));
                    }
                } else if *n_iter == *old(n_iter) {
                    assert(before.waits(0));
                    assert(before.frontier.keys().dom().contains(0));
                }
            }
            match round {
                Round::Exhausted => {
                    proof {
                        assert forall|handle: usize| !self.waits(handle as int) by {
                            assert(!before.frontier.keys().dom().contains(handle));
                            assert(before.frontier.keys().dom().contains(handle) <==> before.waits(
                                handle as int,
                            ));
                        }
                        assert(tree_may_run::<P, Backend>(
                            before.nodes@,
                            before.problem,
                            lim,
                            fuel,
                            rounds,
                            largest,
                            Ending::<P> { found: None, rounds, largest, gave_up: false },
                        ));
                    }
                    return InnerResult::not_found(max_frontier_size);
                },
                Round::Found { state, actions } => {
                    *n_iter += 1;
                    proof {
                        assert(tree_may_run::<P, Backend>(
                            before.nodes@,
                            before.problem,
                            lim,
                            fuel,
                            rounds,
                            largest,
                            Ending::<P> {
                                found: Some(turn->Found_0),
                                rounds: rounds + 1,
                                largest,
                                gave_up: false,
                            },
                        ));
                    }
                    return InnerResult::found(state, actions, max_frontier_size);
                },
                Round::Stalled => {
                    *n_iter += 1;
                    let ghost ended = *self;
                    self.stalled = true;
                    proof {
                        ended.lemma_flag_keeps_order(*self);
                    }
                    return InnerResult::not_found(max_frontier_size);
                },
                Round::Continued => {
                    *n_iter += 1;
                    let size = self.frontier.size();
                    proof {
                        assert(self.frontier.keys().dom() =~= occupied(self.nodes@)) by {
                            assert forall|handle: usize|
                                self.frontier.keys().dom().contains(handle) <==> occupied(
                                    self.nodes@,
                                ).contains(handle) by {
                                assert(self.frontier.keys().dom().contains(handle) <==> self.waits(
                                    handle as int,
                                ));
                            }
                        }
                    }
                    proof {
                        if self.nodes@ == seq![None::<Node<'a, P>>] {
                            assert(occupied(self.nodes@) =~= Set::<usize>::empty());
                        }
                    }
                    if max_frontier_size < size {
                        max_frontier_size = size;
                    }
                    proof {
                        assert forall|ending: Ending<'a, P>| #[trigger]
                            tree_may_run::<P, Backend>(
                                self.nodes@,
                                self.problem,
                                lim,
                                (usize::MAX - *n_iter) as nat,
                                *n_iter as nat,
                                max_frontier_size as nat,
                                ending,
                            ) implies tree_may_attempt::<P, Backend>(
                            self.problem,
                            init_state,
                            lim,
                            *old(n_iter) as nat,
                            ending,
                        ) by {
                            assert(tree_may_run::<P, Backend>(
                                before.nodes@,
                                before.problem,
                                lim,
                                fuel,
                                rounds,
                                largest,
                                ending,
                            ));
                        }
                    }
                },
            }
        }
        let waiting = self.frontier.size();
        let ghost ended = *self;
        self.stalled = waiting != 0;
        proof {
            ended.lemma_flag_keeps_order(*self);
            assert(ended.frontier.keys().dom() =~= occupied(ended.nodes@)) by {
                assert forall|handle: usize|
                    ended.frontier.keys().dom().contains(handle) <==> occupied(
                        ended.nodes@,
                    ).contains(handle) by {
                    assert(ended.frontier.keys().dom().contains(handle) <==> ended.waits(
                        handle as int,
                    ));
                }
            }
            if ended.nodes@ == seq![None::<Node<'a, P>>] {
                assert(occupied(ended.nodes@) =~= Set::<usize>::empty());
            }
            if ended.nodes@ == seq![Some(root)] {
                assert(occupied(ended.nodes@) =~= Set::<usize>::empty().insert(0usize));
            }
            if waiting == 0 {
                assert(tree_may_run::<P, Backend>(
                    ended.nodes@,
                    ended.problem,
                    lim,
                    0,
                    *n_iter as nat,
                    max_frontier_size as nat,
                    Ending::<P> {
                        found: None,
                        rounds: *n_iter as nat,
                        largest: max_frontier_size as nat,
                        gave_up: false,
                    },
                ));
                ended.frontier.keys().dom().lemma_len0_is_empty();
                assert forall|handle: usize| !self.waits(handle as int) by {
                    assert(!ended.frontier.keys().dom().contains(handle));
                    assert(ended.frontier.keys().dom().contains(handle) <==> ended.waits(
                        handle as int,
                    ));
                }
                assert forall|plan: Seq<P::Action>, end: P::State, total: int| #[trigger]
                    plan_costs(ended.problem, init_state, plan, end, total) && (lim matches Some(
                        bound,
                    ) ==> plan.len() <= bound) implies !judges(ended.problem, end, true) by {
                    assert(!ended.pending(plan));
                }
            }
        }
        InnerResult::not_found(max_frontier_size)
    }

    /// Searches from `init_state` without a bound on the depth.
    pub fn search(&mut self, init_state: P::State) -> (result: SearchResult<P::State, P::Action>)
        requires
            clones_exactly::<P::State>(),
            clones_exactly::<P::Action>(),
        ensures
            final(self).same_setting(*old(self)),
            final(self).wf(),
            attempted(old(self).problem, init_state, None, result.state, result.actions),
            result.actions is Some ==> result.n_iter > 0,
            judges(old(self).problem, init_state, true)
                ==> result.state == Some(init_state) && result.actions is Some
                && result.actions->0@.len() == 0 && result.n_iter == 1,
            result.actions is Some ==> !final(self).stalled,
            strict::<Backend>() && !final(self).stalled ==> reports(
                tree_attempt::<P, Backend>(old(self).problem, init_state, None, 0),
                result.state,
                result.actions,
                result.n_iter,
                result.max_frontier_size,
            ),
            !final(self).stalled ==> exists|ending: Ending<'a, P>|
                reports(
                    ending,
                    result.state,
                    result.actions,
                    result.n_iter,
                    result.max_frontier_size,
                ) && #[trigger] tree_may_attempt::<P, Backend>(
                    old(self).problem,
                    init_state,
                    None,
                    0,
                    ending,
                ),
            final(self).stalled ==> hindered::<P>(
                old(self).problem,
                init_state,
                None,
                0,
                result.n_iter,
            ),
            result.actions is None && !final(self).stalled ==> unsolvable(
                old(self).problem,
                init_state,
            ) && forall|handle: usize| !final(self).waits(handle as int),
            result.actions is Some && tree_finds_cheapest::<P, Backend>(old(self).problem)
                ==> cheapest(old(self).problem, init_state, result.actions->0@, result.state->0),
    {
        let start = now();
        let mut n_iter: usize = 0;
        let result = self.inner_search(&mut n_iter, init_state, None);
        SearchResult::from_inner_result(start, n_iter, result)
    }

    /// Searches from `init_state`, expanding no node whose depth has
    /// reached `max_depth`.
    pub fn search_with_max_depth(&mut self, init_state: P::State, max_depth: usize) -> (result:
        SearchResult<P::State, P::Action>)
        requires
            clones_exactly::<P::State>(),
            clones_exactly::<P::Action>(),
        ensures
            final(self).same_setting(*old(self)),
            final(self).wf(),
            attempted(
                old(self).problem,
                init_state,
                Some(max_depth),
                result.state,
                result.actions,
            ),
            result.actions is Some ==> result.n_iter > 0,
            judges(old(self).problem, init_state, true)
                ==> result.state == Some(init_state) && result.actions is Some
                && result.actions->0@.len() == 0 && result.n_iter == 1,
            result.actions is Some ==> !final(self).stalled,
            strict::<Backend>() && !final(self).stalled ==> reports(
                tree_attempt::<P, Backend>(old(self).problem, init_state, Some(max_depth), 0),
                result.state,
                result.actions,
                result.n_iter,
                result.max_frontier_size,
            ),
            max_depth == 0 && judges(old(self).problem, init_state, false) ==> !final(self).stalled && result.actions is None && result.n_iter == 1
                && result.max_frontier_size == 0,
            !final(self).stalled ==> exists|ending: Ending<'a, P>|
                reports(
                    ending,
                    result.state,
                    result.actions,
                    result.n_iter,
                    result.max_frontier_size,
                ) && #[trigger] tree_may_attempt::<P, Backend>(
                    old(self).problem,
                    init_state,
                    Some(max_depth),
                    0,
                    ending,
                ),
            final(self).stalled ==> hindered::<P>(
                old(self).problem,
                init_state,
                Some(max_depth),
                0,
                result.n_iter,
            ),
            result.actions is None && !final(self).stalled ==> unsolvable_within(
                old(self).problem,
                init_state,
                Some(max_depth),
            ) && forall|handle: usize| !final(self).waits(handle as int),
    {
        let start = now();
        let mut n_iter: usize = 0;
        let result = self.inner_search(&mut n_iter, init_state, Some(max_depth));
        SearchResult::from_inner_result(start, n_iter, result)
    }

    /// Searches from `init_state` under the bounds 1, 2, 3 and so on up to
    /// `max_limit`, each attempt starting over, until one finds a suitable
    /// state. The report counts the nodes that the last attempt withdrew,
    /// gives the largest frontier of all the attempts, and the time since
    /// the first attempt began. The search has stalled if one of its
    /// attempts has.
    pub fn iterative_search(&mut self, init_state: P::State, max_limit: usize) -> (result:
        SearchResult<P::State, P::Action>)
        requires
            clones_exactly::<P::State>(),
            clones_exactly::<P::Action>(),
        ensures
            final(self).same_setting(*old(self)),
            final(self).wf(),
            result.actions is Some <==> result.state is Some,
            result.actions is Some ==> exists|lim: usize| #[trigger]
                attempted(
                    old(self).problem,
                    init_state,
                    Some(lim),
                    result.state,
                    result.actions,
                ) && 1 <= lim <= max_limit,
            result.actions is Some ==> result.n_iter > 0,
            max_limit == 0 ==> result.actions is None && result.n_iter == 0
                && result.max_frontier_size == 0,
            max_limit >= 1 && judges(old(self).problem, init_state, true) ==> result.state == Some(
                init_state,
            ) && result.actions is Some && result.actions->0@.len() == 0 && result.n_iter == 1,
            strict::<Backend>() && !final(self).stalled ==> reports(
                tree_deepen::<P, Backend>(old(self).problem, init_state, max_limit, 1, 0, 0),
                result.state,
                result.actions,
                result.n_iter,
                result.max_frontier_size,
            ),
            !final(self).stalled ==> exists|ending: Ending<'a, P>|
                reports(
                    ending,
                    result.state,
                    result.actions,
                    result.n_iter,
                    result.max_frontier_size,
                ) && #[trigger] tree_may_deepen::<P, Backend>(
                    old(self).problem,
                    init_state,
                    max_limit,
                    1,
                    0,
                    0,
                    ending,
                ),
            result.actions is Some ==> !final(self).stalled && shallowest(
                old(self).problem,
                init_state,
                result.actions->0@,
                result.state->0,
            ),
            max_limit >= 1 && result.actions is None && !final(self).stalled ==> unsolvable_within(
                old(self).problem,
                init_state,
                Some(max_limit),
            ),
    {
        let mut lim: usize = 1;
        let mut result: SearchResult<P::State, P::Action> = SearchResult::new();
        let start = now();
        self.reset();
        self.stalled = false;
        while lim <= max_limit
            invariant
                1 <= lim,
                self.same_setting(*old(self)),
                self.wf(),
                !self.stalled,
                result.actions is None,
                result.state is None,
                max_limit == 0 ==> result.n_iter == 0 && result.max_frontier_size == 0,
                judges(self.problem, init_state, true) ==> lim == 1,
                lim >= 2 ==> unsolvable_within(self.problem, init_state, Some((lim - 1) as usize)),
                forall|ending: Ending<'a, P>| #[trigger]
                    tree_may_deepen::<P, Backend>(
                        self.problem,
                        init_state,
                        max_limit,
                        lim,
                        result.max_frontier_size as nat,
                        result.n_iter as nat,
                        ending,
                    ) ==> tree_may_deepen::<P, Backend>(
                        self.problem,
                        init_state,
                        max_limit,
                        1,
                        0,
                        0,
                        ending,
                    ),
                strict::<Backend>() ==> tree_deepen::<P, Backend>(
                    self.problem,
                    init_state,
                    max_limit,
                    1,
                    0,
                    0,
                ) == tree_deepen::<P, Backend>(
                    self.problem,
                    init_state,
                    max_limit,
                    lim,
                    result.max_frontier_size as nat,
                    result.n_iter as nat,
                ),
                clones_exactly::<P::State>(),
                clones_exactly::<P::Action>(),
            decreases max_limit - lim + 1,
        {
            let mut n_iter: usize = 0;
            let init = init_state.clone();
            assert(cloned::<P::State>(init_state, init));
            let ghost largest = result.max_frontier_size as nat;
            let ghost rounds = result.n_iter as nat;
            let inner_result = self.inner_search(&mut n_iter, init, Some(lim));
            if result.max_frontier_size < inner_result.max_frontier_size {
                result.max_frontier_size = inner_result.max_frontier_size;
            }
            result.n_iter = n_iter;
            proof {
                if !self.stalled {
                    let tried = choose|tried: Ending<'a, P>|
                        reports(
                            tried,
                            inner_result.state,
                            inner_result.actions,
                            n_iter,
                            inner_result.max_frontier_size,
                        ) && #[trigger] tree_may_attempt::<P, Backend>(
                            self.problem,
                            init_state,
                            Some(lim),
                            0,
                            tried,
                        );
                    if tried.found is Some || lim == max_limit {
                        assert(tree_may_deepen::<P, Backend>(
                            self.problem,
                            init_state,
                            max_limit,
                            lim,
                            largest,
                            rounds,
                            Ending::<P> {
                                found: tried.found,
                                rounds: tried.rounds,
                                largest: result.max_frontier_size as nat,
                                gave_up: false,
                            },
                        ));
                    } else {
                        assert forall|ending: Ending<'a, P>| #[trigger]
                            tree_may_deepen::<P, Backend>(
                                self.problem,
                                init_state,
                                max_limit,
                                (lim + 1) as usize,
                                result.max_frontier_size as nat,
                                result.n_iter as nat,
                                ending,
                            ) implies tree_may_deepen::<P, Backend>(
                            self.problem,
                            init_state,
                            max_limit,
                            1,
                            0,
                            0,
                            ending,
                        ) by {
                            assert(tree_may_deepen::<P, Backend>(
                                self.problem,
                                init_state,
                                max_limit,
                                lim,
                                largest,
                                rounds,
                                ending,
                            ));
                        }
                    }
                }
            }
            if inner_result.actions.is_some() {
                proof {
                    let found = inner_result.actions->0@;
                    assert forall|other: Seq<P::Action>, other_end: P::State, other_total: int|
                        #![trigger plan_costs(self.problem, init_state, other, other_end, other_total)]
                        plan_costs(self.problem, init_state, other, other_end, other_total)
                            && judges(self.problem, other_end, true) implies found.len()
                        <= other.len() by {
                        if other.len() < found.len() {
                            if lim == 1 {
                                assert(other.len() == 0);
                                assert(other_end == init_state);
                            }
                        }
                    }
                }
                result.total_time = elapsed(&start);
                result.actions = inner_result.actions;
                result.state = inner_result.state;
                return result;
            }
            if self.stalled || lim == max_limit {
                result.total_time = elapsed(&start);
                return result;
            }
            lim += 1;
        }
        proof {
            assert(tree_may_deepen::<P, Backend>(
                self.problem,
                init_state,
                max_limit,
                lim,
                result.max_frontier_size as nat,
                result.n_iter as nat,
                Ending::<P> {
                    found: None,
                    rounds: result.n_iter as nat,
                    largest: result.max_frontier_size as nat,
                    gave_up: false,
                },
            ));
        }
        result.total_time = elapsed(&start);
        result
    }
}

pub type BFSTreeExplorer<'a, P> = TreeExplorer<'a, P, DequeBackend>;

pub type DFSTreeExplorer<'a, P> = TreeExplorer<'a, P, StackBackend>;

pub type MinTreeCostExplorer<'a, P> = TreeExplorer<'a, P, MinCostBackend>;

pub type BestFirstGreedyTreeExplorer<'a, P> = TreeExplorer<'a, P, BestFirstBackend>;

pub type AStarTreeExplorer<'a, P> = TreeExplorer<'a, P, AStarBackend>;

} // verus!
