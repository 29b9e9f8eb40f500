//! The search itself: one episode from an initial state to a suitable one,
//! or to the end of what can be reached.
use vstd::prelude::*;
use std::collections::HashSet;
use std::hash::Hash;
use std::time::{Duration, Instant};
use bumpalo::Bump;
use vstd::std_specs::hash::obeys_key_model;
use crate::backend::{
    AStarBackend, BestFirstBackend, DequeBackend, FrontierBackend, MinCostBackend, StackBackend,
};
use crate::clock::{elapsed, no_time, now};
use crate::frontier::Frontier;
use crate::model::{
    attempt, child, deepen, may_attempt, may_deepen, reports, strict, Ending, Exploring, Turn,
    Waiting,
};
use crate::node::{lemma_cost_limit, place, Node};
use crate::optimal::{finds_cheapest, level_setting, setting};
use crate::problem::{
    cheapest, clones_exactly, estimates, irreflexive, judges, leads, lemma_shallowest_is_cheapest,
    lists, offers, plan_costs, shallowest, step, transition, uniform, unsolvable,
    StateExplorerProblem, Utility,
};

verus! {

/// How one attempt ended: the suitable state and the actions that lead to
/// it, or neither; and the largest number of live nodes that waited at the
/// end of a round.
pub struct InnerResult<State, Action> {
    pub actions: Option<Vec<Action>>,
    pub state: Option<State>,
    pub max_frontier_size: usize,
}

impl<State, Action> InnerResult<State, Action> {
    pub fn found(state: State, actions: Vec<Action>, max_frontier_size: usize) -> (result: Self)
        ensures
            result.state == Some(state),
            result.actions == Some(actions),
            result.max_frontier_size == max_frontier_size,
    {
        Self { state: Some(state), actions: Some(actions), max_frontier_size }
    }

    pub fn not_found(max_frontier_size: usize) -> (result: Self)
        ensures
            result.state is None,
            result.actions is None,
            result.max_frontier_size == max_frontier_size,
    {
        Self { state: None, actions: None, max_frontier_size }
    }
}

/// What a search reports: the suitable state and the actions that lead to
/// it, if it found one; the time it took; the number of nodes it withdrew
/// from the frontier; and the largest number of live nodes that waited at
/// the end of a round.
pub struct SearchResult<State, Action> {
    pub total_time: Duration,
    pub state: Option<State>,
    pub actions: Option<Vec<Action>>,
    pub n_iter: usize,
    pub max_frontier_size: usize,
}

impl<State, Action> SearchResult<State, Action> {
    /// The report of a search that has not begun.
    pub fn new() -> (result: Self)
        ensures
            result.state is None,
            result.actions is None,
            result.n_iter == 0,
            result.max_frontier_size == 0,
    {
        Self { total_time: no_time(), actions: None, state: None, n_iter: 0, max_frontier_size: 0 }
    }

    /// The report of a search that began at `start`, withdrew `n_iter`
    /// nodes and ended as `inner_result` says.
    pub fn from_inner_result(
        start: Instant,
        n_iter: usize,
        inner_result: InnerResult<State, Action>,
    ) -> (result: Self)
        ensures
            result.state == inner_result.state,
            result.actions == inner_result.actions,
            result.n_iter == n_iter,
            result.max_frontier_size == inner_result.max_frontier_size,
    {
        Self {
            state: inner_result.state,
            total_time: elapsed(&start),
            actions: inner_result.actions,
            n_iter,
            max_frontier_size: inner_result.max_frontier_size,
        }
    }
}

/// How much a search is to tell of its progress.
#[derive(PartialEq, Eq, Structural, Clone, Copy, Debug)]
pub enum Verbosity {
    Silent,
    Low,
}

/// How one round of a search ended.
pub enum Round<State, Action> {
    /// No live node waited: the search is over.
    Exhausted,
    /// The node that was withdrawn is suitable: its state, and the actions
    /// that lead to it.
    Found { state: State, actions: Vec<Action> },
    /// The node that was withdrawn is not suitable and was dealt with: the
    /// search goes on.
    Continued,
    /// The node that was withdrawn is not suitable and could not be
    /// expanded, for want of room in the arena or because it is as deep as
    /// a node can be: the search cannot go on.
    Stalled,
}

/// What a round reports is what the round of the model comes to.
pub open spec fn agrees<'a, P: Utility>(
    round: Round<P::State, P::Action>,
    turn: Turn<'a, P>,
) -> bool {
    match (round, turn) {
        (Round::Exhausted, Turn::Exhausted) => true,
        (Round::Found { state, actions }, Turn::Found(node)) => state == node.state && actions@
            == node.plan(),
        (Round::Continued, Turn::Continued) => true,
        (Round::Stalled, Turn::Stalled) => true,
        _ => false,
    }
}

/// Whether a node of depth `depth` is expanded under the bound `lim`: only
/// if it lies above the bound.
pub open spec fn within(lim: Option<usize>, depth: usize) -> bool {
    match lim {
        Some(bound) => depth < bound,
        None => true,
    }
}

/// Why an attempt from `init` under the bound `lim` may have given up,
/// its count of nodes withdrawn having gone from `before` to `after`: the
/// count can go no further; or the last node that it withdrew and counted,
/// a node that records a run from `init`, is not suitable and lies above
/// the bound, could not be expanded.
pub open spec fn hindered<'a, P: StateExplorerProblem>(
    problem: &P,
    init: P::State,
    lim: Option<usize>,
    before: usize,
    after: usize,
) -> bool {
    ||| after == usize::MAX
    ||| before < after && exists|node: Node<'a, P>|
        {
            &&& #[trigger] records(problem, node, init, lim)
            &&& within(lim, node.depth)
            &&& judges(problem, node.state, false)
        }
}

/// What an attempt from `init` under the bound `lim` may report: nothing,
/// or a state that the problem finds suitable together with a plan that
/// leads to it from `init` and is no longer than the bound.
pub open spec fn attempted<P: StateExplorerProblem>(
    problem: &P,
    init: P::State,
    lim: Option<usize>,
    state: Option<P::State>,
    actions: Option<Vec<P::Action>>,
) -> bool {
    if state is Some && actions is Some {
        &&& judges(problem, state->0, true)
        &&& (lim matches Some(bound) ==> actions->0@.len() <= bound)
        &&& leads(problem, init, actions->0@, state->0)
    } else {
        state is None && actions is None
    }
}

/// `node` records a run of `problem` that began in `init` at no cost and
/// respects the bound `lim`: the node and all behind it are well formed,
/// every link is a step of the problem, the root holds `init` at the cost
/// 0, the node's estimate is the problem's, and the node is no deeper than
/// the bound.
pub open spec fn records<'a, P: Utility>(
    problem: &P,
    node: Node<'a, P>,
    init: P::State,
    lim: Option<usize>,
) -> bool {
    &&& node.wf()
    &&& node.follows(problem)
    &&& node.origin() == init
    &&& node.origin_cost() == 0
    &&& estimates(problem, node.state, node.heuristic)
    &&& lim matches Some(bound) ==> node.depth <= bound
}

/// The slot holds a node that was made for a successor of `parent`: its
/// action was offered in the state of `parent` and leads to its state, its
/// cost is that of `parent` and the step together, it is one deeper than
/// `parent`, and its estimate is the problem's.
pub open spec fn child_of<'a, P: Utility>(
    problem: &P,
    parent: &'a Node<'a, P>,
    slot: Option<Node<'a, P>>,
) -> bool {
    &&& slot is Some
    &&& slot->0.parent == Some(parent)
    &&& slot->0.action is Some
    &&& slot->0.depth == parent.depth + 1
    &&& slot->0.total_cost >= parent.total_cost
    &&& slot->0.total_cost - parent.total_cost <= u64::MAX
    &&& step(
        problem,
        parent.state,
        slot->0.action->0,
        slot->0.state,
        (slot->0.total_cost - parent.total_cost) as u64,
    )
    &&& estimates(problem, slot->0.state, slot->0.heuristic)
}

/// A graph search over `problem`: it keeps the states it has expanded and
/// does not generate them again. The nodes it expands live in `arena`.
pub struct Explorer<'a, P: StateExplorerProblem, Backend: FrontierBackend> {
    pub verbosity: Verbosity,
    pub problem: &'a P,
    pub explored: HashSet<P::State>,
    pub frontier: Frontier<'a, P, Backend>,
    pub arena: &'a Bump,
    /// Whether the last search gave up: it found nothing, and had not
    /// tried all that it could reach.
    pub stalled: bool,
}

impl<'a, P: StateExplorerProblem, Backend: FrontierBackend> Explorer<'a, P, Backend> {
    /// What this search holds: what waits, and the states that were
    /// expanded.
    pub open spec fn view(self) -> Exploring<'a, P> {
        Exploring { waiting: self.frontier@, explored: self.explored@ }
    }

    /// `node` records a run of this explorer's problem from `init` under the
    /// bound `lim`.
    pub open spec fn runs(self, node: Node<'a, P>, init: P::State, lim: Option<usize>) -> bool {
        records(self.problem, node, init, lim)
    }

    /// The frontier is in order, and every node that waits in it records
    /// such a run.
    pub open spec fn tracks(self, init: P::State, lim: Option<usize>) -> bool {
        &&& self.frontier.wf()
        &&& forall|handle: usize| #[trigger]
            self.frontier.waits(handle as int) ==> self.runs(
                self.frontier.entries()[handle as int]->0,
                init,
                lim,
            )
    }

    /// `state` was expanded, or a live node waits for it at a cost of
    /// `bound` at most.
    pub open spec fn covered(self, state: P::State, bound: int) -> bool {
        ||| self.explored@.contains(state)
        ||| {
            &&& self.frontier.index().contains_key(state)
            &&& self.frontier.entries()[self.frontier.index()[state] as int]->0.total_cost
                <= bound
        }
    }

    /// Offering the frontier a node loses no cover, and covers the state of
    /// the node at the node's cost.
    pub proof fn lemma_offer_covers(before: Self, after: Self, item: Node<'a, P>)
        requires
            before.frontier.wf(),
            before.frontier.entries().len() <= usize::MAX,
            after.explored@ == before.explored@,
            before.frontier.rejects(item) ==> after.frontier.entries()
                == before.frontier.entries() && after.frontier.index()
                == before.frontier.index(),
            !before.frontier.rejects(item) ==> after.frontier.entries()
                == before.frontier.superseding(item.state).push(Some(item))
                && after.frontier.index() == before.frontier.index().insert(
                item.state,
                before.frontier.entries().len() as usize,
            ),
        ensures
            after.covered(item.state, item.total_cost as int),
            forall|state: P::State, bound: int| #[trigger]
                before.covered(state, bound) ==> after.covered(state, bound),
    {
        let count = before.frontier.entries().len();
        let marked = before.frontier.superseding(item.state);
        assert(marked.len() == count);
        if !before.frontier.rejects(item) {
            assert(after.frontier.entries()[count as int] == Some(item));
            assert(after.frontier.index()[item.state] == count as usize);
        }
        assert forall|state: P::State, bound: int| #[trigger]
            before.covered(state, bound) implies after.covered(state, bound) by {
            if !before.explored@.contains(state) && !before.frontier.rejects(item) {
                let handle = before.frontier.index()[state];
                assert(before.frontier.live(handle as int));
                if state != item.state {
                    if before.frontier.index().contains_key(item.state) {
                        let other = before.frontier.index()[item.state];
                        assert(before.frontier.live(other as int));
                        assert(other != handle);
                        assert(marked[handle as int] == before.frontier.entries()[handle as int]);
                    }
                    assert(after.frontier.index()[state] == handle);
                    assert(after.frontier.entries()[handle as int] == marked[handle as int]);
                    assert(after.frontier.entries()[handle as int]
                        == before.frontier.entries()[handle as int]);
                } else {
                    assert(before.frontier.index().contains_key(item.state));
                }
            }
        }
    }

    /// No state that was expanded has a live node waiting for it.
    pub open spec fn separate(self) -> bool {
        forall|state: P::State| #[trigger]
            self.explored@.contains(state) ==> !self.frontier.index().contains_key(state)
    }

    /// What a round did with the node that it withdrew from `before`, where
    /// that node waited under `handle`: the node was live and the one that
    /// the index held for its state, and the backend's rule put it before
    /// every other live node. If it was suitable the round reports its
    /// state and its plan, and nothing was expanded. If not, its state
    /// counts as expanded, unless the round stalled; and if its depth had
    /// reached the bound, no node was generated: the frontier has only lost
    /// nodes. Where no expanded state had a live node waiting and no action
    /// leads back to the state it is taken in, the state of the node had
    /// not been expanded before.
    pub open spec fn took(
        before: Self,
        after: Self,
        lim: Option<usize>,
        round: Round<P::State, P::Action>,
        handle: usize,
    ) -> bool {
        let node = before.frontier.entries()[handle as int]->0;
        &&& before.frontier.live(handle as int)
        &&& before.frontier.index().contains_key(node.state)
        &&& before.frontier.index()[node.state] == handle
        &&& forall|other: usize| #[trigger]
            before.frontier.live(other as int) ==> Backend::precedes(
                handle,
                Backend::key_of(node.total_cost, node.heuristic),
                other,
                Backend::key_of(
                    before.frontier.entries()[other as int]->0.total_cost,
                    before.frontier.entries()[other as int]->0.heuristic,
                ),
            )
        &&& before.separate() && irreflexive(before.problem) ==> !before.explored@.contains(
            node.state,
        )
        &&& match round {
            Round::Found { state, actions } => {
                &&& state == node.state
                &&& actions@ == node.plan()
                &&& judges(before.problem, node.state, true)
                &&& after.explored@ == before.explored@
            },
            Round::Continued => {
                &&& judges(before.problem, node.state, false)
                &&& after.explored@ == before.explored@.insert(node.state)
                &&& !within(lim, node.depth) ==> after.frontier.thinned_from(before.frontier)
                    && after.frontier.index() == before.frontier.index().remove(node.state)
            },
            Round::Stalled => {
                &&& judges(before.problem, node.state, false)
                &&& within(lim, node.depth)
                &&& after.explored@ == before.explored@
            },
            Round::Exhausted => false,
        }
    }

    /// Problem, arena and verbosity are those of `before`.
    pub open spec fn same_setting(self, before: Self) -> bool {
        &&& self.problem == before.problem
        &&& self.arena == before.arena
        &&& self.verbosity == before.verbosity
    }
}

impl<'a, P: StateExplorerProblem, Backend: FrontierBackend> Explorer<'a, P, Backend> where
    P::State: Eq + Hash + Clone,
    P::Action: Clone,
 {
    pub fn with_verbosity(problem: &'a P, arena: &'a Bump, verbosity: Verbosity) -> (explorer: Self)
        ensures
            explorer.problem == problem,
            explorer.arena == arena,
            explorer.verbosity == verbosity,
            explorer.explored@ == Set::<P::State>::empty(),
            explorer.frontier.wf(),
            explorer.frontier.entries().len() == 0,
    {
        Self {
            problem,
            verbosity,
            explored: HashSet::new(),
            frontier: Frontier::new(),
            arena,
            stalled: false,
        }
    }

    pub fn with_low_v(problem: &'a P, arena: &'a Bump) -> (explorer: Self)
        ensures
            explorer.problem == problem,
            explorer.arena == arena,
            explorer.verbosity == Verbosity::Low,
            explorer.explored@ == Set::<P::State>::empty(),
            explorer.frontier.wf(),
            explorer.frontier.entries().len() == 0,
    {
        Self {
            problem,
            verbosity: Verbosity::Low,
            explored: HashSet::new(),
            frontier: Frontier::new(),
            arena,
            stalled: false,
        }
    }

    pub fn new(problem: &'a P, arena: &'a Bump) -> (explorer: Self)
        ensures
            explorer.problem == problem,
            explorer.arena == arena,
            explorer.verbosity == Verbosity::Silent,
            explorer.explored@ == Set::<P::State>::empty(),
            explorer.frontier.wf(),
            explorer.frontier.entries().len() == 0,
    {
        Self {
            problem,
            verbosity: Verbosity::Silent,
            explored: HashSet::new(),
            frontier: Frontier::new(),
            arena,
            stalled: false,
        }
    }

    /// Generates the successors of `parent`, a node that has left the
    /// frontier and now lives in the arena: asks the problem for the actions
    /// that can be taken in its state and for what each leads to, and offers
    /// the frontier a node for every successor that was not expanded before.
    /// Then the state of `parent` counts as expanded.
    ///
    /// Afterwards every state that was covered is covered still, and every
    /// state that a step leads to from `parent` is covered at the cost of
    /// `parent` and the step together.
    /// Where every waiting node recorded a run of the problem from the
    /// origin of `parent`, as `parent` does, that is so afterwards. Where
    /// no expanded state had a live node waiting, none waited for the state
    /// of `parent`, and no action of the problem leads back to the state it
    /// was taken in, no expanded state has a live node waiting afterwards.
    /// Where every step costs the same and the frontier was tiered above
    /// the depth of `parent`, it is so afterwards, and no node was
    /// superseded.
    pub fn generate(&mut self, parent: &'a Node<'a, P>)
        requires
            old(self).frontier.wf(),
            parent.wf(),
            parent.depth < usize::MAX,
            obeys_key_model::<P::State>(),
            clones_exactly::<P::State>(),
            clones_exactly::<P::Action>(),
        ensures
            final(self).same_setting(*old(self)),
            final(self).stalled == old(self).stalled,
            final(self).frontier.wf(),
            final(self).explored@ == old(self).explored@.insert(parent.state),
            final(self).frontier@ == old(self).frontier@.grow(
                old(self).problem,
                parent,
                old(self).explored@,
                old(self).problem.actions(parent.state),
            ),
            old(self).frontier.entries().len() <= final(self).frontier.entries().len(),
            forall|handle: int|
                0 <= handle < old(self).frontier.entries().len() ==> {
                    ||| #[trigger] final(self).frontier.entries()[handle] == old(
                        self,
                    ).frontier.entries()[handle]
                    ||| old(self).frontier.entries()[handle] is Some && final(self).frontier.entries()[handle] == Some(
                        old(self).frontier.entries()[handle]->0.tombstoned(),
                    )
                },
            forall|handle: int|
                old(self).frontier.entries().len() <= handle < final(self).frontier.entries().len() ==> child_of(
                    old(self).problem,
                    parent,
                    #[trigger] final(self).frontier.entries()[handle],
                ) && !old(self).explored@.contains(final(self).frontier.entries()[handle]->0.state),
            forall|lim: Option<usize>| #[trigger]
                within(lim, parent.depth) && old(self).tracks(parent.origin(), lim) && old(
                    self,
                ).runs(*parent, parent.origin(), lim) ==> final(self).tracks(parent.origin(), lim),
            irreflexive(old(self).problem) && old(self).separate() && !old(
                self,
            ).frontier.index().contains_key(parent.state) ==> final(self).separate(),
            forall|state: P::State, bound: int| #[trigger]
                old(self).covered(state, bound) ==> final(self).covered(state, bound),
            forall|
                action: P::Action,
                next: P::State,
                cost: u64,
            | #[trigger]
                step(old(self).problem, parent.state, action, next, cost) ==> final(self).covered(
                    next,
                    parent.total_cost + cost,
                ),
            forall|cost: u64| #[trigger]
                uniform(old(self).problem, cost) && old(self).frontier.tiered_above(
                    parent.depth as int,
                    cost as int,
                ) && parent.total_cost == cost * parent.depth ==> final(self).frontier.tiered_above(
                    parent.depth as int,
                    cost as int,
                ) && final(self).frontier.extends(old(self).frontier),
    {
        let ghost node = *parent;
        let ghost init = node.origin();
        let ghost apart = irreflexive(old(self).problem) && old(self).separate() && !old(
            self,
        ).frontier.index().contains_key(node.state);
        let actions = self.problem.executable_actions(parent.get_state());
        let mut i: usize = 0;
        while i < actions.len()
            invariant
                i <= actions.len(),
                *parent == node,
                node.wf(),
                init == node.origin(),
                node.depth < usize::MAX,
                self.frontier.wf(),
                self.frontier@ == old(self).frontier@.grow(
                    self.problem,
                    parent,
                    old(self).explored@,
                    actions@.take(i as int),
                ),
                old(self).frontier.entries().len() <= self.frontier.entries().len(),
                forall|handle: int|
                    0 <= handle < old(self).frontier.entries().len() ==> {
                        ||| #[trigger] self.frontier.entries()[handle] == old(
                            self,
                        ).frontier.entries()[handle]
                        ||| old(self).frontier.entries()[handle] is Some
                            && self.frontier.entries()[handle] == Some(
                            old(self).frontier.entries()[handle]->0.tombstoned(),
                        )
                    },
                forall|handle: int|
                    old(self).frontier.entries().len() <= handle < self.frontier.entries().len()
                        ==> child_of(
                        self.problem,
                        parent,
                        #[trigger] self.frontier.entries()[handle],
                    ) && !old(self).explored@.contains(self.frontier.entries()[handle]->0.state),
                forall|lim: Option<usize>| #[trigger]
                    within(lim, node.depth) && old(self).tracks(init, lim) && old(self).runs(
                        node,
                        init,
                        lim,
                    ) ==> self.tracks(init, lim),
                apart ==> irreflexive(self.problem) && self.separate()
                    && !self.frontier.index().contains_key(node.state),
                forall|state: P::State, bound: int| #[trigger]
                    old(self).covered(state, bound) ==> self.covered(state, bound),
                forall|cost: u64| #[trigger]
                    uniform(self.problem, cost) && old(self).frontier.tiered_above(
                        node.depth as int,
                        cost as int,
                    ) && node.total_cost == cost * node.depth ==> self.frontier.tiered_above(
                        node.depth as int,
                        cost as int,
                    ) && self.frontier.extends(old(self).frontier),
                forall|j: int, next: P::State, cost: u64|
                    0 <= j < i && #[trigger] transition(
                        self.problem,
                        node.state,
                        actions@[j],
                        next,
                        cost,
                    ) ==> self.covered(next, node.total_cost + cost),
                self.same_setting(*old(self)),
                self.stalled == old(self).stalled,
                self.explored == old(self).explored,
                actions@ == self.problem.actions(node.state),
                obeys_key_model::<P::State>(),
                clones_exactly::<P::State>(),
                clones_exactly::<P::Action>(),
            decreases actions.len() - i,
        {
            let action = actions[i].clone();
            assert(cloned::<P::Action>(actions@[i as int], action));
            let (new_state, cost) = self.problem.result(parent.get_state(), &action);
            assert(transition(self.problem, node.state, action, new_state, cost));
            proof {
                assert(actions@.take(i + 1).drop_last() == actions@.take(i as int));
                assert(actions@.take(i + 1).last() == action);
                assert(child(self.problem, parent, action).state == new_state);
            }
            if !self.explored.contains(&new_state) {
                let new_node = Node::new(Some(parent), self.problem, new_state, Some(action), cost);
                proof {
                    lemma_cost_limit(node.depth);
                    assert(new_node == child(self.problem, parent, action));
                    assert(actions@.contains(action));
                    assert(lists(self.problem, node.state, actions@));
                    assert(offers(self.problem, node.state, action));
                    assert(step(self.problem, node.state, action, new_state, cost));
                }
                let ghost earlier = *self;
                let _ = self.frontier.enqueue_or_replace(new_node);
                proof {
                    assert(earlier.frontier.nodes.len() == earlier.frontier.nodes@.len());
                    let marked = earlier.frontier.superseding(new_state);
                    assert(marked.len() == earlier.frontier.entries().len());
                    assert forall|handle: int|
                        0 <= handle < earlier.frontier.entries().len() implies {
                        ||| #[trigger] marked[handle] == earlier.frontier.entries()[handle]
                        ||| earlier.frontier.entries()[handle] is Some && marked[handle] == Some(
                            earlier.frontier.entries()[handle]->0.tombstoned(),
                        )
                    } by {
                        if earlier.frontier.index().contains_key(new_state) {
                            assert(earlier.frontier.live(
                                earlier.frontier.index()[new_state] as int,
                            ));
                        }
                    }
                    assert forall|handle: int|
                        0 <= handle < old(self).frontier.entries().len() implies {
                        ||| #[trigger] self.frontier.entries()[handle] == old(
                            self,
                        ).frontier.entries()[handle]
                        ||| old(self).frontier.entries()[handle] is Some
                            && self.frontier.entries()[handle] == Some(
                            old(self).frontier.entries()[handle]->0.tombstoned(),
                        )
                    } by {
                        assert(self.frontier.entries()[handle] == earlier.frontier.entries()[handle]
                            || self.frontier.entries()[handle] == marked[handle]);
                    }
                    assert forall|handle: int|
                        old(self).frontier.entries().len() <= handle
                            < self.frontier.entries().len() implies child_of(
                        self.problem,
                        parent,
                        #[trigger] self.frontier.entries()[handle],
                    ) && !old(self).explored@.contains(
                        self.frontier.entries()[handle]->0.state,
                    ) by {
                        if handle < earlier.frontier.entries().len() {
                            assert(self.frontier.entries()[handle]
                                == earlier.frontier.entries()[handle]
                                || self.frontier.entries()[handle] == marked[handle]);
                            assert(child_of(
                                self.problem,
                                parent,
                                earlier.frontier.entries()[handle],
                            ));
                        }
                    }
                    Self::lemma_offer_covers(earlier, *self, new_node);
                    assert forall|cost: u64| #[trigger]
                        uniform(self.problem, cost) && old(self).frontier.tiered_above(
                            node.depth as int,
                            cost as int,
                        ) && node.total_cost == cost * node.depth implies self.frontier.tiered_above(
                        node.depth as int,
                        cost as int,
                    ) && self.frontier.extends(old(self).frontier) by {
                        assert(new_node.total_cost == cost * (node.depth + 1)) by (nonlinear_arith)
                            requires
                                new_node.total_cost == node.total_cost + cost,
                                node.total_cost == cost * node.depth,
                        ;
                        earlier.frontier.lemma_offer_keeps_tiers(
                            self.frontier,
                            new_node,
                            node.depth as int,
                            cost as int,
                        );
                    }
                    assert forall|lim: Option<usize>| #[trigger]
                        within(lim, node.depth) && old(self).tracks(init, lim) && old(self).runs(
                            node,
                            init,
                            lim,
                        ) implies self.tracks(init, lim) by {
                        assert(earlier.tracks(init, lim));
                        assert(new_node.follows(self.problem));
                        assert(new_node.origin() == init);
                        assert(new_node.origin_cost() == 0);
                        assert(self.runs(new_node, init, lim));
                        assert forall|handle: usize| #[trigger]
                            self.frontier.waits(handle as int) implies self.runs(
                            self.frontier.entries()[handle as int]->0,
                            init,
                            lim,
                        ) by {
                            if handle < earlier.frontier.entries().len() {
                                assert(earlier.frontier.waits(handle as int));
                            }
                        }
                    }
                }
            }
            i += 1;
        }
        assert(actions@.take(i as int) == actions@);
        let ghost grown = *self;
        let state = parent.get_state().clone();
        assert(cloned::<P::State>(node.state, state));
        let _ = self.explored.insert(state);
        proof {
            assert forall|state: P::State, bound: int| #[trigger]
                grown.covered(state, bound) implies self.covered(state, bound) by {}
            assert forall|lim: Option<usize>| #[trigger]
                within(lim, node.depth) && old(self).tracks(init, lim) && old(self).runs(
                    node,
                    init,
                    lim,
                ) implies self.tracks(init, lim) by {
                assert(grown.tracks(init, lim));
            }
            assert forall|action: P::Action, next: P::State, cost: u64| #[trigger]
                step(self.problem, node.state, action, next, cost) implies self.covered(
                next,
                node.total_cost + cost,
            ) by {
                let j = choose|j: int| 0 <= j < actions@.len() && actions@[j] == action;
                assert(transition(self.problem, node.state, actions@[j], next, cost));
                assert(grown.covered(next, node.total_cost + cost));
            }
        }
    }

    /// Deals with `node`, which has just left the frontier and is not
    /// suitable. If its depth has reached the bound it is not expanded: its
    /// state counts as expanded, and the frontier stays as it is. Otherwise
    /// the node is moved into the arena and its successors are generated.
    /// `false`, with nothing changed, when the node was to be expanded and
    /// could not be: the arena had no room to keep it, or it is as deep as
    /// a node can be.
    pub fn expand(&mut self, node: Node<'a, P>, lim: Option<usize>) -> (room: bool)
        requires
            old(self).frontier.wf(),
            node.wf(),
            obeys_key_model::<P::State>(),
            clones_exactly::<P::State>(),
            clones_exactly::<P::Action>(),
        ensures
            final(self).same_setting(*old(self)),
            final(self).stalled == old(self).stalled,
            final(self).frontier.wf(),
            !room ==> within(lim, node.depth) && final(self).frontier == old(self).frontier
                && final(self).explored == old(self).explored,
            room ==> final(self).explored@ == old(self).explored@.insert(node.state),
            !within(lim, node.depth) ==> room && final(self).frontier.entries() == old(
                self,
            ).frontier.entries() && final(self).frontier.index() == old(self).frontier.index(),
            room && within(lim, node.depth) ==> node.depth < usize::MAX && final(self).frontier@
                == old(self).frontier@.grow(
                old(self).problem,
                &node,
                old(self).explored@,
                old(self).problem.actions(node.state),
            ),
            old(self).tracks(node.origin(), lim) && old(self).runs(node, node.origin(), lim)
                ==> final(self).tracks(node.origin(), lim),
            irreflexive(old(self).problem) && old(self).separate() && !old(
                self,
            ).frontier.index().contains_key(node.state) ==> final(self).separate(),
            forall|state: P::State, bound: int| #[trigger]
                old(self).covered(state, bound) ==> final(self).covered(state, bound),
            room && within(lim, node.depth) ==> forall|
                action: P::Action,
                next: P::State,
                cost: u64,
            | #[trigger]
                step(old(self).problem, node.state, action, next, cost) ==> final(self).covered(
                    next,
                    node.total_cost + cost,
                ),
            forall|cost: u64| #[trigger]
                uniform(old(self).problem, cost) && old(self).frontier.tiered_above(
                    node.depth as int,
                    cost as int,
                ) && node.total_cost == cost * node.depth ==> final(self).frontier.tiered_above(
                    node.depth as int,
                    cost as int,
                ) && final(self).frontier.extends(old(self).frontier),
    {
        let depth = node.get_depth();
        let open = match lim {
            Some(bound) => bound > depth,
            None => true,
        };
        if open {
            if depth == usize::MAX {
                return false;
            }
            match place(self.arena, node) {
                None => {
                    return false;
                },
                Some(parent) => {
                    self.generate(parent);
                    assert(within(lim, parent.depth));
                },
            }
        } else {
            let state = node.get_state().clone();
            assert(cloned::<P::State>(node.state, state));
            let _ = self.explored.insert(state);
        }
        true
    }

    /// One round of the search: withdraws the node that the frontier puts
    /// first, and either finds it suitable or expands it under the bound
    /// `lim`.
    pub fn advance(&mut self, lim: Option<usize>) -> (round: Round<P::State, P::Action>)
        requires
            old(self).frontier.wf(),
            obeys_key_model::<P::State>(),
            clones_exactly::<P::State>(),
            clones_exactly::<P::Action>(),
        ensures
            final(self).same_setting(*old(self)),
            final(self).stalled == old(self).stalled,
            final(self).frontier.wf(),
            round is Exhausted <==> old(self).frontier.index() == Map::<P::State, usize>::empty(),
            round is Exhausted ==> final(self).explored@ == old(self).explored@ && final(self).frontier.index() == old(self).frontier.index(),
            !(round is Exhausted) ==> exists|handle: usize|
                Self::took(*old(self), *final(self), lim, round, handle),
            forall|init: P::State| #[trigger]
                old(self).tracks(init, lim) ==> {
                    &&& final(self).tracks(init, lim)
                    &&& round matches Round::Found { state, actions } ==> {
                        &&& lim matches Some(bound) ==> actions@.len() <= bound
                        &&& leads(old(self).problem, init, actions@, state)
                    }
                },
            irreflexive(old(self).problem) && old(self).separate() ==> final(self).separate(),
            forall|init: P::State| #[trigger]
                old(self).tracks(init, lim) && round is Found ==> exists|handle: usize|
                    {
                        &&& Self::took(*old(self), *final(self), lim, round, handle)
                        &&& #[trigger] plan_costs(
                            old(self).problem,
                            init,
                            old(self).frontier.entries()[handle as int]->0.plan(),
                            old(self).frontier.entries()[handle as int]->0.state,
                            old(self).frontier.entries()[handle as int]->0.total_cost as int,
                        )
                        &&& old(self).frontier.entries()[handle as int]->0.plan().len() == old(
                            self,
                        ).frontier.entries()[handle as int]->0.depth
                    },
            strict::<Backend>() && !(round is Stalled) ==> agrees(
                round,
                old(self)@.round::<Backend>(old(self).problem, lim).0,
            ) && final(self)@ == old(self)@.round::<Backend>(old(self).problem, lim).1,
            !(round is Stalled) ==> exists|turn: Turn<'a, P>|
                agrees(round, turn) && #[trigger] old(self)@.may_round::<Backend>(
                    old(self).problem,
                    lim,
                    turn,
                    final(self)@,
                ),
            forall|init: P::State| #[trigger]
                old(self).closed(init) && lim is None ==> (round is Continued ==> final(self).closed(init)),
            forall|init: P::State| #[trigger]
                old(self).level_ideal(init) && lim is None ==> {
                    &&& round is Continued ==> final(self).level_ideal(init)
                    &&& round matches Round::Found { state, actions } ==> shallowest(
                        old(self).problem,
                        init,
                        actions@,
                        state,
                    )
                },
            forall|init: P::State, informed: bool| #[trigger]
                old(self).ideal(init, informed) && lim is None ==> {
                    &&& round is Continued ==> final(self).ideal(init, informed)
                    &&& round matches Round::Found { state, actions } ==> cheapest(
                        old(self).problem,
                        init,
                        actions@,
                        state,
                    )
                },
    {
        let ghost before = *self;
        match self.frontier.dequeue() {
            None => {
                assert forall|init: P::State| #[trigger] before.tracks(init, lim) implies self.tracks(
                    init,
                    lim,
                ) by {}
                proof {
                    assert(before@.waiting.may_withdraw::<Backend>(None, self@.waiting));
                    assert(before@.may_round::<Backend>(
                        before.problem,
                        lim,
                        Turn::Exhausted,
                        self@,
                    ));
                }
                Round::Exhausted
            },
            Some(node) => {
                let ghost handle = before.frontier.index()[node.state];
                let ghost thinned = *self;
                proof {
                    assert(before@.waiting.may_withdraw::<Backend>(Some(node), thinned@.waiting));
                    assert(before.frontier.waits(handle as int));
                    assert(before.frontier.live(handle as int));
                    assert(node.wf());
                    assert forall|init: P::State| #[trigger] before.tracks(init, lim) implies {
                        &&& thinned.tracks(init, lim)
                        &&& thinned.runs(node, init, lim)
                    } by {
                        assert forall|h: usize| #[trigger]
                            thinned.frontier.waits(h as int) implies thinned.runs(
                            thinned.frontier.entries()[h as int]->0,
                            init,
                            lim,
                        ) by {
                            assert(before.frontier.waits(h as int));
                        }
                    }
                    if before.separate() && irreflexive(before.problem) {
                        assert(!before.explored@.contains(node.state));
                        assert(thinned.separate());
                    }
                }
                if self.problem.is_suitable(node.get_state()) {
                    let state = node.get_state().clone();
                    assert(cloned::<P::State>(node.state, state));
                    let actions = node.get_plan();
                    proof {
                        assert forall|init: P::State| #[trigger]
                            before.tracks(init, lim) implies {
                            &&& lim matches Some(bound) ==> actions@.len() <= bound
                            &&& leads(before.problem, init, actions@, state)
                        } by {
                            node.lemma_plan_reaches(before.problem);
                            assert(plan_costs(
                                before.problem,
                                init,
                                actions@,
                                state,
                                node.total_cost - node.origin_cost(),
                            ));
                        }
                    }
                    proof {
                        assert forall|init: P::State, informed: bool| #[trigger]
                            before.ideal(init, informed) && lim is None implies cheapest(
                            before.problem,
                            init,
                            actions@,
                            state,
                        ) by {
                            node.lemma_plan_reaches(before.problem);
                            let total = node.total_cost as int;
                            assert(plan_costs(before.problem, init, actions@, state, total));
                            assert forall|
                                other: Seq<P::Action>,
                                other_end: P::State,
                                other_total: int,
                            |
                                #![trigger plan_costs(before.problem, init, other, other_end, other_total)]
                                plan_costs(before.problem, init, other, other_end, other_total)
                                    && judges(before.problem, other_end, true) implies total
                                <= other_total by {
                                before.lemma_first_is_lightest(init, informed, handle);
                                before.lemma_lightest(
                                    init,
                                    informed,
                                    handle,
                                    other,
                                    other_end,
                                    other_total,
                                );
                            }
                        }
                    }
                    proof {
                        assert forall|init: P::State| #[trigger]
                            before.level_ideal(init) && lim is None implies shallowest(
                            before.problem,
                            init,
                            actions@,
                            state,
                        ) by {
                            before.lemma_first_is_shallowest(init, handle);
                        }
                    }
                    let round = Round::Found { state, actions };
                    assert(Self::took(before, *self, lim, round, handle));
                    proof {
                        assert forall|init: P::State| #[trigger]
                            before.tracks(init, lim) implies plan_costs(
                            before.problem,
                            init,
                            node.plan(),
                            node.state,
                            node.total_cost as int,
                        ) && node.plan().len() == node.depth by {
                            node.lemma_plan_reaches(before.problem);
                        }
                    }
                    assert(before@.may_round::<Backend>(
                        before.problem,
                        lim,
                        Turn::Found(node),
                        self@,
                    ));
                    round
                } else {
                    let room = self.expand(node, lim);
                    proof {
                        assert forall|init: P::State| #[trigger]
                            before.tracks(init, lim) implies self.tracks(init, lim) by {
                            assert(thinned.tracks(init, lim) && thinned.runs(node, init, lim));
                            assert(node.origin() == init);
                        }
                    }
                    if room {
                        proof {
                            if !within(lim, node.depth) {
                                assert(self.frontier.thinned_from(before.frontier));
                            }
                            assert(Self::took(before, *self, lim, Round::Continued, handle));
                            assert(before@.may_round::<Backend>(
                                before.problem,
                                lim,
                                Turn::Continued,
                                self@,
                            ));
                            assert forall|state: P::State, bound: int| #[trigger]
                                before.covered(state, bound) implies self.covered(state, bound) by {
                                if !before.explored@.contains(state) && state != node.state {
                                    let other = before.frontier.index()[state];
                                    assert(before.frontier.live(other as int));
                                    assert(thinned.covered(state, bound));
                                }
                            }
                            assert forall|init: P::State| #[trigger]
                                before.closed(init) && lim is None implies self.closed(init) by {
                                before.lemma_round_keeps_closed(*self, init, handle);
                            }
                            assert forall|init: P::State| #[trigger]
                                before.level_ideal(init) && lim is None implies self.level_ideal(
                                init,
                            ) by {
                                let cost = choose|cost: u64|
                                    uniform(before.problem, cost)
                                        && #[trigger] before.frontier.tiered(cost as int);
                                assert forall|other: usize| #[trigger]
                                    before.frontier.live(other as int) implies handle
                                    <= other by {
                                    assert(before.first(handle));
                                }
                                before.frontier.lemma_withdrawal_keeps_tiers(
                                    thinned.frontier,
                                    handle,
                                    cost as int,
                                );
                                assert(self.frontier.tiered_above(node.depth as int, cost as int));
                                assert(self.frontier.extends(thinned.frontier));
                                assert(self.frontier.tiered(cost as int));
                                assert forall|state: P::State, bound: int| #[trigger]
                                    before.within_reach(state, bound) implies self.within_reach(
                                    state,
                                    bound,
                                ) by {
                                    if !before.explored@.contains(state) && state != node.state {
                                        let other = before.frontier.index()[state];
                                        assert(before.frontier.live(other as int));
                                        assert(thinned.frontier.index().contains_key(state));
                                    }
                                }
                                assert forall|action: P::Action, next: P::State, paid: u64|
                                    #[trigger]
                                    step(
                                        before.problem,
                                        node.state,
                                        action,
                                        next,
                                        paid,
                                    ) implies self.within_reach(next, node.depth + 1) by {
                                    assert(self.covered(next, node.total_cost + paid));
                                    if !self.explored@.contains(next) {
                                        assert(self.frontier.live(
                                            self.frontier.index()[next] as int,
                                        ));
                                    }
                                }
                                before.lemma_round_keeps_levels(*self, init, handle);
                            }
                            assert forall|init: P::State, informed: bool| #[trigger]
                                before.ideal(init, informed) && lim is None implies self.ideal(
                                init,
                                informed,
                            ) by {
                                before.lemma_first_is_lightest(init, informed, handle);
                                before.lemma_round_keeps_sound(*self, init, informed, handle);
                            }
                        }
                        Round::Continued
                    } else {
                        assert(Self::took(before, *self, lim, Round::Stalled, handle));
                        Round::Stalled
                    }
                }
            },
        }
    }

    /// One attempt: starts over from `init_state`, and takes rounds until
    /// one finds a suitable state, no live node waits, a round stalls, or
    /// `n_iter`, which counts the nodes withdrawn, can count no further.
    pub fn inner_search(
        &mut self,
        n_iter: &mut usize,
        init_state: P::State,
        lim: Option<usize>,
    ) -> (result: InnerResult<P::State, P::Action>)
        requires
            obeys_key_model::<P::State>(),
            clones_exactly::<P::State>(),
            clones_exactly::<P::Action>(),
        ensures
            final(self).same_setting(*old(self)),
            final(self).frontier.wf(),
            attempted(old(self).problem, init_state, lim, result.state, result.actions),
            *old(n_iter) <= *final(n_iter),
            result.actions is Some ==> *old(n_iter) < *final(n_iter),
            lim is None && result.actions is Some && finds_cheapest::<P, Backend>(
                old(self).problem,
            ) ==> cheapest(
                old(self).problem,
                init_state,
                result.actions->0@,
                result.state->0,
            ),
            lim is None && result.actions is Some && level_setting::<P, Backend>(
                old(self).problem,
            ) ==> shallowest(
                old(self).problem,
                init_state,
                result.actions->0@,
                result.state->0,
            ),
            result.actions is Some ==> !final(self).stalled,
            lim is None && result.actions is None && !final(self).stalled ==> unsolvable(
                old(self).problem,
                init_state,
            ),
            *old(n_iter) < usize::MAX && judges(
                old(self).problem,
                init_state,
                true,
            ) ==> result.state == Some(init_state) && result.actions is Some
                && result.actions->0@.len() == 0 && *final(n_iter) == *old(n_iter) + 1,
            irreflexive(old(self).problem) ==> final(self).separate(),
            strict::<Backend>() && !final(self).stalled ==> reports(
                attempt::<P, Backend>(old(self).problem, init_state, lim, *old(n_iter) as nat),
                result.state,
                result.actions,
                *final(n_iter),
                result.max_frontier_size,
            ),
            !final(self).stalled ==> exists|ending: Ending<'a, P>|
                reports(
                    ending,
                    result.state,
                    result.actions,
                    *final(n_iter),
                    result.max_frontier_size,
                ) && #[trigger] may_attempt::<P, Backend>(
                    old(self).problem,
                    init_state,
                    lim,
                    *old(n_iter) as nat,
                    ending,
                ),
            lim == Some(0usize) && *old(n_iter) < usize::MAX && judges(
                old(self).problem,
                init_state,
                false,
            ) ==> !final(self).stalled && result.actions is None && *final(n_iter) == *old(n_iter)
                + 1 && result.max_frontier_size == 0,
            *old(n_iter) == usize::MAX ==> final(self).stalled && result.actions is None,
            final(self).stalled ==> hindered::<P>(
                old(self).problem,
                init_state,
                lim,
                *old(n_iter),
                *final(n_iter),
            ),
            result.actions is None && !final(self).stalled ==> final(self).frontier.index()
                == Map::<P::State, usize>::empty(),
    {
        self.stalled = false;
        self.frontier.reset();
        self.explored.clear();
        assert(self.frontier@ == Waiting::<P>::empty());
        let root = Node::new(None, self.problem, init_state, None, 0);
        assert(root == crate::model::root(self.problem, init_state));
        let _ = self.frontier.enqueue_or_replace(root);
        assert(self@ == Exploring::start(self.problem, init_state));
        assert(self.frontier.entries() =~= seq![Some(root)]);
        assert(self.tracks(init_state, lim)) by {
            assert forall|handle: usize| #[trigger]
                self.frontier.waits(handle as int) implies self.runs(
                self.frontier.entries()[handle as int]->0,
                init_state,
                lim,
            ) by {
                assert(handle == 0);
            }
        }
        assert(self.sound(init_state)) by {
            assert(self.frontier.index().contains_key(init_state));
        }
        assert(self.closed(init_state)) by {
            assert(self.frontier.index().contains_key(init_state));
        }
        proof {
            if level_setting::<P, Backend>(self.problem) {
                let even = choose|cost: u64| #[trigger] uniform(self.problem, cost);
                assert(self.frontier.tiered(even as int)) by {
                    assert forall|handle: usize| #[trigger]
                        self.frontier.waits(handle as int) implies handle == 0
                        && self.frontier.live(handle as int) by {}
                    assert forall|first: usize, second: usize|
                        #![trigger self.frontier.live(first as int), self.frontier.live(second as int)]
                        self.frontier.live(first as int) && self.frontier.live(second as int)
                            && first <= second implies first == 0 && second == 0 by {}
                    assert(even * 0 == 0) by (nonlinear_arith);
                }
                assert(self.levelled(init_state)) by {
                    assert(self.frontier.index().contains_key(init_state));
                }
            }
        }
        let mut max_frontier_size: usize = 0;
        while *n_iter < usize::MAX
            invariant
                self.same_setting(*old(self)),
                !self.stalled,
                strict::<Backend>() ==> attempt::<P, Backend>(
                    self.problem,
                    init_state,
                    lim,
                    *old(n_iter) as nat,
                ) == self@.run::<Backend>(
                    self.problem,
                    lim,
                    (usize::MAX - *n_iter) as nat,
                    *n_iter as nat,
                    max_frontier_size as nat,
                ),
                forall|ending: Ending<'a, P>| #[trigger]
                    self@.may_run::<Backend>(
                        self.problem,
                        lim,
                        (usize::MAX - *n_iter) as nat,
                        *n_iter as nat,
                        max_frontier_size as nat,
                        ending,
                    ) ==> may_attempt::<P, Backend>(
                        self.problem,
                        init_state,
                        lim,
                        *old(n_iter) as nat,
                        ending,
                    ),
                self.tracks(init_state, lim),
                irreflexive(self.problem) ==> self.separate(),
                *n_iter == *old(n_iter) ==> max_frontier_size == 0 && self.frontier.entries()
                    == seq![Some(root)] && self.frontier.index() == Map::<
                    P::State,
                    usize,
                >::empty().insert(
                    init_state,
                    0usize,
                ),
                lim == Some(0usize) && judges(self.problem, init_state, false) && *n_iter > *old(
                    n_iter,
                ) ==> *n_iter == *old(n_iter) + 1 && max_frontier_size == 0
                    && self.frontier.index() == Map::<P::State, usize>::empty(),
                root.state == init_state,
                root.parent is None,
                !root.dead,
                judges(self.problem, init_state, true) ==> *n_iter
                    == *old(n_iter),
                lim is None && (setting::<P, Backend>(self.problem, true) || setting::<P, Backend>(
                    self.problem,
                    false,
                )) ==> self.sound(init_state),
                lim is None ==> self.closed(init_state),
                lim is None && level_setting::<P, Backend>(self.problem) ==> self.level_ideal(
                    init_state,
                ),
                *old(n_iter) <= *n_iter,
                obeys_key_model::<P::State>(),
                clones_exactly::<P::State>(),
                clones_exactly::<P::Action>(),
            decreases usize::MAX - *n_iter,
        {
            let ghost before = *self;
            let ghost fuel = (usize::MAX - *n_iter) as nat;
            let ghost rounds = *n_iter as nat;
            let ghost largest = max_frontier_size as nat;
            let round = self.advance(lim);
            let ghost turn = if round is Stalled {
                Turn::<P>::Stalled
            } else {
                choose|turn: Turn<'a, P>|
                    agrees(round, turn) && #[trigger] before@.may_round::<Backend>(
                        before.problem,
                        lim,
                        turn,
                        self@,
                    )
            };
            proof {
                assert(before.tracks(init_state, lim));
                if !(round is Exhausted) {
                    let handle = choose|handle: usize|
                        Self::took(before, *self, lim, round, handle);
                    assert(Self::took(before, *self, lim, round, handle));
                    let node = before.frontier.entries()[handle as int]->0;
                    assert(before.frontier.live(handle as int));
                    assert(records(self.problem, node, init_state, lim));
                    if *n_iter == *old(n_iter) {
                        assert(handle == 0);
                        assert(root.plan() =~= Seq::<P::Action>::empty());
                        if lim == Some(0usize) && round is Continued {
                            assert(self.frontier.index() =~= Map::<P::State, usize>::empty());
                        }
                    }
                } else if *n_iter == *old(n_iter) {
                    assert(before.frontier.live(0));
                    assert(before.frontier.index().contains_key(init_state));
                }
                if lim is None {
                    if setting::<P, Backend>(self.problem, true) {
                        assert(before.ideal(init_state, true));
                    }
                    if setting::<P, Backend>(self.problem, false) {
                        assert(before.ideal(init_state, false));
                    }
                    if level_setting::<P, Backend>(self.problem) {
                        assert(before.level_ideal(init_state));
                    }
                }
            }
            match round {
                Round::Exhausted => {
                    proof {
                        if lim is None {
                            before.lemma_closed_exhausted(init_state);
                        }
                        let ending = Ending::<P> { found: None, rounds, largest, gave_up: false };
                        assert(before@.may_round::<Backend>(before.problem, lim, turn, self@));
                        assert(before@.may_run::<Backend>(
                            before.problem,
                            lim,
                            fuel,
                            rounds,
                            largest,
                            ending,
                        ));
                    }
                    return InnerResult::not_found(max_frontier_size);
                },
                Round::Found { state, actions } => {
                    *n_iter += 1;
                    proof {
                        if lim is None && level_setting::<P, Backend>(self.problem) {
                            let even = choose|cost: u64| #[trigger] uniform(self.problem, cost);
                            lemma_shallowest_is_cheapest(
                                self.problem,
                                even,
                                init_state,
                                actions@,
                                state,
                            );
                        }
                        let ending = Ending::<P> {
                            found: Some(turn->Found_0),
                            rounds: rounds + 1,
                            largest,
                            gave_up: false,
                        };
                        assert(before@.may_round::<Backend>(before.problem, lim, turn, self@));
                        assert(before@.may_run::<Backend>(
                            before.problem,
                            lim,
                            fuel,
                            rounds,
                            largest,
                            ending,
                        ));
                    }
                    return InnerResult::found(state, actions, max_frontier_size);
                },
                Round::Stalled => {
                    *n_iter += 1;
                    self.stalled = true;
                    return InnerResult::not_found(max_frontier_size);
                },
                Round::Continued => {
                    *n_iter += 1;
                    let size = self.frontier.size();
                    if max_frontier_size < size {
                        max_frontier_size = size;
                    }
                    proof {
                        assert forall|ending: Ending<'a, P>| #[trigger]
                            self@.may_run::<Backend>(
                                self.problem,
                                lim,
                                (usize::MAX - *n_iter) as nat,
                                *n_iter as nat,
                                max_frontier_size as nat,
                                ending,
                            ) implies may_attempt::<P, Backend>(
                            self.problem,
                            init_state,
                            lim,
                            *old(n_iter) as nat,
                            ending,
                        ) by {
                            assert(before@.may_round::<Backend>(before.problem, lim, turn, self@));
                            assert(before@.may_run::<Backend>(
                                before.problem,
                                lim,
                                fuel,
                                rounds,
                                largest,
                                ending,
                            ));
                        }
                    }
                },
            }
        }
        let waiting = self.frontier.size();
        self.stalled = waiting != 0;
        proof {
            if waiting == 0 {
                assert(self@.may_run::<Backend>(
                    self.problem,
                    lim,
                    0,
                    *n_iter as nat,
                    max_frontier_size as nat,
                    Ending::<P> {
                        found: None,
                        rounds: *n_iter as nat,
                        largest: max_frontier_size as nat,
                        gave_up: false,
                    },
                ));
                self.frontier.index().dom().lemma_len0_is_empty();
                assert(self.frontier.index() =~= Map::<P::State, usize>::empty());
                if lim is None {
                    self.lemma_closed_exhausted(init_state);
                }
            }
        }
        InnerResult::not_found(max_frontier_size)
    }

    /// Searches from `init_state` without a bound on the depth.
    pub fn search(&mut self, init_state: P::State) -> (result: SearchResult<P::State, P::Action>)
        requires
            obeys_key_model::<P::State>(),
            clones_exactly::<P::State>(),
            clones_exactly::<P::Action>(),
        ensures
            final(self).same_setting(*old(self)),
            final(self).frontier.wf(),
            attempted(old(self).problem, init_state, None, result.state, result.actions),
            result.actions is Some ==> result.n_iter > 0,
            result.actions is Some && finds_cheapest::<P, Backend>(old(self).problem) ==> cheapest(
                old(self).problem,
                init_state,
                result.actions->0@,
                result.state->0,
            ),
            result.actions is Some && level_setting::<P, Backend>(old(self).problem)
                ==> shallowest(old(self).problem, init_state, result.actions->0@, result.state->0),
            result.actions is Some ==> !final(self).stalled,
            result.actions is None && !final(self).stalled ==> unsolvable(
                old(self).problem,
                init_state,
            ),
            judges(old(self).problem, init_state, true)
                ==> result.state == Some(init_state) && result.actions is Some
                && result.actions->0@.len() == 0 && result.n_iter == 1,
            irreflexive(old(self).problem) ==> final(self).separate(),
            strict::<Backend>() && !final(self).stalled ==> reports(
                attempt::<P, Backend>(old(self).problem, init_state, None, 0),
                result.state,
                result.actions,
                result.n_iter,
                result.max_frontier_size,
            ),
            !final(self).stalled ==> exists|ending: Ending<'a, P>|
                reports(
                    ending,
                    result.state,
                    result.actions,
                    result.n_iter,
                    result.max_frontier_size,
                ) && #[trigger] may_attempt::<P, Backend>(
                    old(self).problem,
                    init_state,
                    None,
                    0,
                    ending,
                ),
            final(self).stalled ==> hindered::<P>(
                old(self).problem,
                init_state,
                None,
                0,
                result.n_iter,
            ),
            result.actions is None && !final(self).stalled ==> final(self).frontier.index()
                == Map::<P::State, usize>::empty(),
    {
        let start = now();
        let mut n_iter: usize = 0;
        let result = self.inner_search(&mut n_iter, init_state, None);
        SearchResult::from_inner_result(start, n_iter, result)
    }

    /// Searches from `init_state`, expanding no node whose depth has
    /// reached `max_depth`.
    pub fn search_with_max_depth(&mut self, init_state: P::State, max_depth: usize) -> (result:
        SearchResult<P::State, P::Action>)
        requires
            obeys_key_model::<P::State>(),
            clones_exactly::<P::State>(),
            clones_exactly::<P::Action>(),
        ensures
            final(self).same_setting(*old(self)),
            final(self).frontier.wf(),
            attempted(
                old(self).problem,
                init_state,
                Some(max_depth),
                result.state,
                result.actions,
            ),
            result.actions is Some ==> result.n_iter > 0,
            result.actions is Some ==> !final(self).stalled,
            judges(old(self).problem, init_state, true)
                ==> result.state == Some(init_state) && result.actions is Some
                && result.actions->0@.len() == 0 && result.n_iter == 1,
            irreflexive(old(self).problem) ==> final(self).separate(),
            strict::<Backend>() && !final(self).stalled ==> reports(
                attempt::<P, Backend>(old(self).problem, init_state, Some(max_depth), 0),
                result.state,
                result.actions,
                result.n_iter,
                result.max_frontier_size,
            ),
            max_depth == 0 && judges(old(self).problem, init_state, false) ==> !final(self).stalled && result.actions is None && result.n_iter == 1
                && result.max_frontier_size == 0,
            !final(self).stalled ==> exists|ending: Ending<'a, P>|
                reports(
                    ending,
                    result.state,
                    result.actions,
                    result.n_iter,
                    result.max_frontier_size,
                ) && #[trigger] may_attempt::<P, Backend>(
                    old(self).problem,
                    init_state,
                    Some(max_depth),
                    0,
                    ending,
                ),
            final(self).stalled ==> hindered::<P>(
                old(self).problem,
                init_state,
                Some(max_depth),
                0,
                result.n_iter,
            ),
            result.actions is None && !final(self).stalled ==> final(self).frontier.index()
                == Map::<P::State, usize>::empty(),
    {
        let start = now();
        let mut n_iter: usize = 0;
        let result = self.inner_search(&mut n_iter, init_state, Some(max_depth));
        SearchResult::from_inner_result(start, n_iter, result)
    }

    /// Searches from `init_state` under the bounds 1, 2, 3 and so on up to
    /// `max_limit`, each attempt starting over, until one finds a suitable
    /// state. The report counts the nodes that the last attempt withdrew,
    /// gives the largest frontier of all the attempts, and the time since
    /// the first attempt began. The search has stalled if one of its
    /// attempts has.
    pub fn iterative_search(&mut self, init_state: P::State, max_limit: usize) -> (result:
        SearchResult<P::State, P::Action>)
        requires
            obeys_key_model::<P::State>(),
            clones_exactly::<P::State>(),
            clones_exactly::<P::Action>(),
        ensures
            final(self).same_setting(*old(self)),
            final(self).frontier.wf(),
            result.actions is Some <==> result.state is Some,
            result.actions is Some ==> exists|lim: usize| #[trigger]
                attempted(
                    old(self).problem,
                    init_state,
                    Some(lim),
                    result.state,
                    result.actions,
                ) && 1 <= lim <= max_limit,
            result.actions is Some ==> result.n_iter > 0,
            max_limit == 0 ==> result.actions is None && result.n_iter == 0
                && result.max_frontier_size == 0,
            max_limit >= 1 && judges(old(self).problem, init_state, true) ==> result.state == Some(
                init_state,
            ) && result.actions is Some && result.actions->0@.len() == 0 && result.n_iter == 1,
            strict::<Backend>() && !final(self).stalled ==> reports(
                deepen::<P, Backend>(old(self).problem, init_state, max_limit, 1, 0, 0),
                result.state,
                result.actions,
                result.n_iter,
                result.max_frontier_size,
            ),
            !final(self).stalled ==> exists|ending: Ending<'a, P>|
                reports(
                    ending,
                    result.state,
                    result.actions,
                    result.n_iter,
                    result.max_frontier_size,
                ) && #[trigger] may_deepen::<P, Backend>(
                    old(self).problem,
                    init_state,
                    max_limit,
                    1,
                    0,
                    0,
                    ending,
                ),
    {
        let mut lim: usize = 1;
        let mut result: SearchResult<P::State, P::Action> = SearchResult::new();
        let start = now();
        self.frontier.reset();
        self.stalled = false;
        while lim <= max_limit
            invariant
                1 <= lim,
                self.same_setting(*old(self)),
                self.frontier.wf(),
                !self.stalled,
                result.actions is None,
                result.state is None,
                max_limit == 0 ==> result.n_iter == 0 && result.max_frontier_size == 0,
                judges(self.problem, init_state, true) ==> lim == 1,
                strict::<Backend>() ==> deepen::<P, Backend>(
                    self.problem,
                    init_state,
                    max_limit,
                    1,
                    0,
                    0,
                ) == deepen::<P, Backend>(
                    self.problem,
                    init_state,
                    max_limit,
                    lim,
                    result.max_frontier_size as nat,
                    result.n_iter as nat,
                ),
                forall|ending: Ending<'a, P>| #[trigger]
                    may_deepen::<P, Backend>(
                        self.problem,
                        init_state,
                        max_limit,
                        lim,
                        result.max_frontier_size as nat,
                        result.n_iter as nat,
                        ending,
                    ) ==> may_deepen::<P, Backend>(
                        self.problem,
                        init_state,
                        max_limit,
                        1,
                        0,
                        0,
                        ending,
                    ),
                obeys_key_model::<P::State>(),
                clones_exactly::<P::State>(),
                clones_exactly::<P::Action>(),
            decreases max_limit - lim + 1,
        {
            let mut n_iter: usize = 0;
            let init = init_state.clone();
            assert(cloned::<P::State>(init_state, init));
            let ghost largest = result.max_frontier_size as nat;
            let ghost rounds = result.n_iter as nat;
            let inner_result = self.inner_search(&mut n_iter, init, Some(lim));
            if result.max_frontier_size < inner_result.max_frontier_size {
                result.max_frontier_size = inner_result.max_frontier_size;
            }
            result.n_iter = n_iter;
            proof {
                if !self.stalled {
                    let tried = choose|tried: Ending<'a, P>|
                        reports(
                            tried,
                            inner_result.state,
                            inner_result.actions,
                            n_iter,
                            inner_result.max_frontier_size,
                        ) && #[trigger] may_attempt::<P, Backend>(
                            self.problem,
                            init_state,
                            Some(lim),
                            0,
                            tried,
                        );
                    if tried.found is Some || lim == max_limit {
                        let ending = Ending::<P> {
                            found: tried.found,
                            rounds: tried.rounds,
                            largest: result.max_frontier_size as nat,
                            gave_up: false,
                        };
                        assert(may_deepen::<P, Backend>(
                            self.problem,
                            init_state,
                            max_limit,
                            lim,
                            largest,
                            rounds,
                            ending,
                        ));
                    } else {
                        assert forall|ending: Ending<'a, P>| #[trigger]
                            may_deepen::<P, Backend>(
                                self.problem,
                                init_state,
                                max_limit,
                                (lim + 1) as usize,
                                result.max_frontier_size as nat,
                                result.n_iter as nat,
                                ending,
                            ) implies may_deepen::<P, Backend>(
                            self.problem,
                            init_state,
                            max_limit,
                            1,
                            0,
                            0,
                            ending,
                        ) by {
                            assert(may_deepen::<P, Backend>(
                                self.problem,
                                init_state,
                                max_limit,
                                lim,
                                largest,
                                rounds,
                                ending,
                            ));
                        }
                    }
                }
            }
            if inner_result.actions.is_some() {
                result.total_time = elapsed(&start);
                result.actions = inner_result.actions;
                result.state = inner_result.state;
                return result;
            }
            if self.stalled || lim == max_limit {
                result.total_time = elapsed(&start);
                return result;
            }
            lim += 1;
        }
        proof {
            assert(may_deepen::<P, Backend>(
                self.problem,
                init_state,
                max_limit,
                lim,
                result.max_frontier_size as nat,
                result.n_iter as nat,
                Ending::<P> {
                    found: None,
                    rounds: result.n_iter as nat,
                    largest: result.max_frontier_size as nat,
                    gave_up: false,
                },
            ));
        }
        result.total_time = elapsed(&start);
        result
    }
}

pub type BFSExplorer<'a, P> = Explorer<'a, P, DequeBackend>;

pub type DFSExplorer<'a, P> = Explorer<'a, P, StackBackend>;

pub type MinCostExplorer<'a, P> = Explorer<'a, P, MinCostBackend>;

pub type BestFirstGreedyExplorer<'a, P> = Explorer<'a, P, BestFirstBackend>;

pub type AStarExplorer<'a, P> = Explorer<'a, P, AStarBackend>;

} // verus!
