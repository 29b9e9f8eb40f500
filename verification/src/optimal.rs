//! What a search finds: why a search that withdraws the cheapest node first
//! finds a cheapest plan, why a breadth-first search finds a shallowest one,
//! and why a search that has nothing left to try has missed nothing.
//!
//! The argument for the cost-ordered graph search is the one behind
//! uniform-cost search and A*. Between the rounds of a search the expanded
//! states are closed off by the frontier: every step out of an expanded
//! state leads to a state that was expanded too, or for which a live node
//! waits at a cost no higher than that of any run through the step. So every
//! run of the problem from the initial state ends in an expanded state or
//! passes a waiting node that weighs no more than the run does, and the node
//! that is withdrawn, being the lightest, costs no more than any run to its
//! state. The breadth-first search is closed off in the same way by depth in
//! place of cost. A tree search loses no plan: of every plan a beginning
//! waits until its end was tried.
use vstd::prelude::*;
use crate::backend::{AStarBackend, DequeBackend, FrontierBackend, MinCostBackend};
use crate::explorer::Explorer;
use crate::node::lemma_cost_limit;
use crate::explorer::records;
use crate::problem::{
    admissible, cheapest, consistent, estimates, judges, lemma_plan_prefix, lemma_plan_unique,
    lemma_uniform_plan_cost, plan_costs, plan_reaches, potential, shallowest, step, uniform,
    unsolvable, StateExplorerProblem, Utility,
};
use crate::tree::TreeExplorer;

verus! {

/// The backend lets the node of the smallest weight go first, and weighs a
/// node by its path cost, to which it adds the estimate where the search is
/// `informed`.
pub open spec fn orders_by<Backend: FrontierBackend>(informed: bool) -> bool {
    &&& forall|first: usize, first_key: u128, second: usize, second_key: u128| #[trigger]
        Backend::precedes(first, first_key, second, second_key) ==> first_key <= second_key
    &&& forall|g: u128, h: u64|
        g + h <= u128::MAX ==> #[trigger] Backend::key_of(g, h) == g + (if informed {
            h
        } else {
            0
        })
}

/// Problem and backend are such that the search finds a cheapest plan: the
/// backend orders by cost, and where it adds the estimate, the estimate is
/// consistent.
pub open spec fn setting<P: StateExplorerProblem, Backend: FrontierBackend>(
    problem: &P,
    informed: bool,
) -> bool {
    &&& consistent(problem, informed)
    &&& orders_by::<Backend>(informed)
}

/// The backend lets the node that came first go first.
pub open spec fn fifo<Backend: FrontierBackend>() -> bool {
    forall|first: usize, first_key: u128, second: usize, second_key: u128| #[trigger]
        Backend::precedes(first, first_key, second, second_key) ==> first <= second
}

/// Problem and backend are such that the search goes through the states
/// level by level: each step of the problem costs the same, and the backend
/// lets the node that came first go first.
pub open spec fn level_setting<P: StateExplorerProblem, Backend: FrontierBackend>(
    problem: &P,
) -> bool {
    &&& fifo::<Backend>()
    &&& exists|cost: u64| #[trigger] uniform(problem, cost)
}

/// A search over `problem` with this backend and without a bound on the
/// depth finds a cheapest plan if it finds one at all: it orders by weight,
/// or it goes level by level.
pub open spec fn finds_cheapest<P: StateExplorerProblem, Backend: FrontierBackend>(
    problem: &P,
) -> bool {
    ||| setting::<P, Backend>(problem, true)
    ||| setting::<P, Backend>(problem, false)
    ||| level_setting::<P, Backend>(problem)
}

/// Problem and backend are such that a tree search finds a cheapest plan:
/// the backend orders by cost, and where it adds the estimate, the estimate
/// is admissible.
pub open spec fn tree_setting<P: StateExplorerProblem, Backend: FrontierBackend>(
    problem: &P,
    informed: bool,
) -> bool {
    &&& admissible(problem, informed)
    &&& orders_by::<Backend>(informed)
}

/// A tree search over `problem` with this backend and without a bound on
/// the depth finds a cheapest plan if it finds one at all.
pub open spec fn tree_finds_cheapest<P: StateExplorerProblem, Backend: FrontierBackend>(
    problem: &P,
) -> bool {
    tree_setting::<P, Backend>(problem, true) || tree_setting::<P, Backend>(problem, false)
}

/// Uniform-cost tree search is optimal, on every problem.
pub proof fn lemma_uniform_cost_tree_is_optimal<P: StateExplorerProblem>(problem: &P)
    ensures
        tree_finds_cheapest::<P, MinCostBackend>(problem),
{
    assert forall|state: P::State, plan: Seq<P::Action>, end: P::State, total: int| #[trigger]
        plan_costs(problem, state, plan, end, total) implies 0 <= total by {
        lemma_plan_prefix(problem, state, plan, end, total, 0);
    }
    assert(tree_setting::<P, MinCostBackend>(problem, false));
}

/// A* tree search is optimal on a problem with an admissible estimate.
pub proof fn lemma_a_star_tree_is_optimal<P: StateExplorerProblem>(problem: &P)
    requires
        admissible(problem, true),
    ensures
        tree_finds_cheapest::<P, AStarBackend>(problem),
{
    assert(tree_setting::<P, AStarBackend>(problem, true));
}

impl<'a, P: StateExplorerProblem, Backend: FrontierBackend> TreeExplorer<'a, P, Backend> {
    /// The tree search is on its way to a cheapest plan from `init`: it
    /// runs without a bound, has lost no plan, and the node that goes first
    /// is the lightest.
    pub open spec fn primed(self, init: P::State, informed: bool) -> bool {
        &&& self.tracks(init, None)
        &&& self.thorough(init, None)
        &&& tree_setting::<P, Backend>(self.problem, informed)
    }

    /// The plan of a suitable node that the backend puts first is a
    /// cheapest plan: of every plan to a suitable state a beginning waits,
    /// and weighs no more than the plan costs.
    pub proof fn lemma_first_is_cheapest(self, init: P::State, informed: bool, handle: usize)
        requires
            self.primed(init, informed),
            self.waits(handle as int),
            judges(self.problem, self.nodes@[handle as int]->0.state, true),
            forall|other: usize| #[trigger]
                self.waits(other as int) ==> Backend::precedes(
                    handle,
                    Backend::key_of(
                        self.nodes@[handle as int]->0.total_cost,
                        self.nodes@[handle as int]->0.heuristic,
                    ),
                    other,
                    Backend::key_of(
                        self.nodes@[other as int]->0.total_cost,
                        self.nodes@[other as int]->0.heuristic,
                    ),
                ),
        ensures
            cheapest(
                self.problem,
                init,
                self.nodes@[handle as int]->0.plan(),
                self.nodes@[handle as int]->0.state,
            ),
    {
        let node = self.nodes@[handle as int]->0;
        assert(records(self.problem, node, init, None));
        node.lemma_plan_reaches(self.problem);
        lemma_cost_limit(node.depth);
        let found = node.total_cost as int;
        assert(plan_costs(self.problem, init, node.plan(), node.state, found));
        assert forall|other: Seq<P::Action>, other_end: P::State, other_total: int|
            #![trigger plan_costs(self.problem, init, other, other_end, other_total)]
            plan_costs(self.problem, init, other, other_end, other_total) && judges(
                self.problem,
                other_end,
                true,
            ) implies found <= other_total by {
            assert(self.pending(other));
            let via = choose|via: usize|
                self.waits(via as int) && #[trigger] self.nodes@[via as int]->0.plan().len()
                    <= other.len() && other.take(self.nodes@[via as int]->0.plan().len() as int)
                    == self.nodes@[via as int]->0.plan();
            let begun = self.nodes@[via as int]->0;
            assert(records(self.problem, begun, init, None));
            begun.lemma_plan_reaches(self.problem);
            lemma_cost_limit(begun.depth);
            let count = begun.plan().len() as int;
            lemma_plan_prefix(self.problem, init, other, other_end, other_total, count);
            let (mid, paid) = choose|mid: P::State, paid: int|
                0 <= paid <= other_total && #[trigger] plan_costs(
                    self.problem,
                    init,
                    other.take(count),
                    mid,
                    paid,
                ) && plan_costs(self.problem, mid, other.skip(count), other_end, other_total - paid);
            lemma_plan_unique(
                self.problem,
                init,
                begun.plan(),
                mid,
                paid,
                begun.state,
                begun.total_cost - begun.origin_cost(),
            );
            assert(potential(self.problem, informed, begun.state) <= other_total - paid);
        }
    }
}

/// Uniform-cost search is optimal. On every problem, a search that weighs a
/// node by its path cost alone finds a plan that no plan to a suitable
/// state undercuts. Costs are never negative: a cost is a `u64`.
pub proof fn lemma_uniform_cost_is_optimal<P: StateExplorerProblem>(problem: &P)
    ensures
        finds_cheapest::<P, MinCostBackend>(problem),
{
    assert(setting::<P, MinCostBackend>(problem, false));
}

/// A* is optimal. On a problem with a consistent estimate, a search that
/// weighs a node by its path cost and its estimate together finds a plan
/// that no plan to a suitable state undercuts.
pub proof fn lemma_a_star_is_optimal<P: StateExplorerProblem>(problem: &P)
    requires
        consistent(problem, true),
    ensures
        finds_cheapest::<P, AStarBackend>(problem),
{
    assert(setting::<P, AStarBackend>(problem, true));
}

/// Breadth-first search goes level by level. On a problem with one cost
/// for all steps, whatever that cost is, a search that lets the node that
/// came first go first finds a plan than which no plan to a suitable state
/// is shorter, or cheaper.
pub proof fn lemma_breadth_first_is_optimal<P: StateExplorerProblem>(problem: &P, cost: u64)
    requires
        uniform(problem, cost),
    ensures
        level_setting::<P, DequeBackend>(problem),
        finds_cheapest::<P, DequeBackend>(problem),
{
    assert(level_setting::<P, DequeBackend>(problem));
}

impl<'a, P: StateExplorerProblem, Backend: FrontierBackend> Explorer<'a, P, Backend> {
    /// `state` was expanded, or a live node waits for it that is `bound`
    /// deep at most.
    pub open spec fn within_reach(self, state: P::State, bound: int) -> bool {
        ||| self.explored@.contains(state)
        ||| {
            &&& self.frontier.index().contains_key(state)
            &&& self.frontier.entries()[self.frontier.index()[state] as int]->0.depth <= bound
        }
    }

    /// The expanded states are closed off by the frontier, level by level:
    /// the initial state is within reach at depth 0, no expanded state is
    /// suitable, and the state that a step leads to from an expanded state
    /// is within reach at the length of any plan that ends with that step.
    pub open spec fn levelled(self, init: P::State) -> bool {
        &&& self.within_reach(init, 0)
        &&& forall|state: P::State| #[trigger]
            self.explored@.contains(state) ==> judges(self.problem, state, false)
        &&& forall|
            state: P::State,
            plan: Seq<P::Action>,
            total: int,
            action: P::Action,
            next: P::State,
            cost: u64,
        |
            #![trigger plan_costs(self.problem, init, plan, state, total), step(self.problem, state, action, next, cost)]
            self.explored@.contains(state) && plan_costs(self.problem, init, plan, state, total)
                && step(self.problem, state, action, next, cost) ==> self.within_reach(
                next,
                (plan.len() + 1) as int,
            )
    }

    /// The search goes through the states level by level from `init`: it
    /// runs without a bound, the backend lets the node that came first go
    /// first, every step costs the same, every waiting node records a run
    /// from `init`, the frontier is tiered, and the expanded states are
    /// closed off level by level.
    pub open spec fn level_ideal(self, init: P::State) -> bool {
        &&& self.tracks(init, None)
        &&& self.levelled(init)
        &&& fifo::<Backend>()
        &&& exists|cost: u64| uniform(self.problem, cost) && #[trigger] self.frontier.tiered(
            cost as int,
        )
    }

    /// Every plan from the initial state ends in an expanded state, or a
    /// live node waits that is no deeper than the plan is long.
    pub proof fn lemma_level_reach(
        self,
        init: P::State,
        plan: Seq<P::Action>,
        end: P::State,
        total: int,
    )
        requires
            self.levelled(init),
            plan_costs(self.problem, init, plan, end, total),
        ensures
            self.explored@.contains(end) || exists|via: P::State|
                self.frontier.index().contains_key(via) && #[trigger] self.frontier.entries()[
                    self.frontier.index()[via] as int
                ]->0.depth <= plan.len(),
        decreases plan.len(),
    {
        if plan.len() == 0 {
            if !self.explored@.contains(end) {
                assert(self.frontier.index().contains_key(init));
                assert(self.frontier.entries()[self.frontier.index()[init] as int]->0.depth
                    <= plan.len());
            }
        } else {
            let (before, cost) = choose|before: P::State, cost: u64|
                #![trigger step(self.problem, before, plan.last(), end, cost)]
                plan_reaches(self.problem, init, plan.drop_last(), before, total - cost) && step(
                    self.problem,
                    before,
                    plan.last(),
                    end,
                    cost,
                );
            assert(plan_costs(self.problem, init, plan.drop_last(), before, total - cost));
            self.lemma_level_reach(init, plan.drop_last(), before, total - cost);
            if self.explored@.contains(before) {
                assert(self.within_reach(end, (plan.drop_last().len() + 1) as int));
                if !self.explored@.contains(end) {
                    assert(self.frontier.entries()[self.frontier.index()[end] as int]->0.depth
                        <= plan.len());
                }
            } else {
                let via = choose|via: P::State|
                    self.frontier.index().contains_key(via) && #[trigger] self.frontier.entries()[
                        self.frontier.index()[via] as int
                    ]->0.depth <= plan.drop_last().len();
                assert(self.frontier.entries()[self.frontier.index()[via] as int]->0.depth
                    <= plan.len());
            }
        }
    }

    /// The node that came first is no deeper than any plan from the initial
    /// state to a state that was not expanded is long.
    pub proof fn lemma_shallowest_first(
        self,
        init: P::State,
        handle: usize,
        plan: Seq<P::Action>,
        end: P::State,
        total: int,
    )
        requires
            self.level_ideal(init),
            self.frontier.live(handle as int),
            self.first(handle),
            plan_costs(self.problem, init, plan, end, total),
            !self.explored@.contains(end),
        ensures
            self.frontier.entries()[handle as int]->0.depth <= plan.len(),
    {
        self.lemma_level_reach(init, plan, end, total);
        let via = choose|via: P::State|
            self.frontier.index().contains_key(via) && #[trigger] self.frontier.entries()[
                self.frontier.index()[via] as int
            ]->0.depth <= plan.len();
        let other = self.frontier.index()[via];
        assert(self.frontier.live(other as int));
        assert(self.frontier.live(handle as int) && self.frontier.live(other as int));
    }

    /// A round that expands the node which came first keeps the expanded
    /// states closed off level by level.
    pub proof fn lemma_round_keeps_levels(self, after: Self, init: P::State, handle: usize)
        requires
            self.level_ideal(init),
            self.frontier.live(handle as int),
            self.first(handle),
            after.problem == self.problem,
            judges(self.problem, self.frontier.entries()[handle as int]->0.state, false),
            after.explored@ == self.explored@.insert(
                self.frontier.entries()[handle as int]->0.state,
            ),
            forall|state: P::State, bound: int| #[trigger]
                self.within_reach(state, bound) ==> after.within_reach(state, bound),
            forall|action: P::Action, next: P::State, cost: u64| #[trigger]
                step(
                    self.problem,
                    self.frontier.entries()[handle as int]->0.state,
                    action,
                    next,
                    cost,
                ) ==> after.within_reach(next, self.frontier.entries()[handle as int]->0.depth + 1),
        ensures
            after.levelled(init),
    {
        let node = self.frontier.entries()[handle as int]->0;
        assert forall|
            state: P::State,
            plan: Seq<P::Action>,
            total: int,
            action: P::Action,
            next: P::State,
            cost: u64,
        |
            #![trigger plan_costs(after.problem, init, plan, state, total), step(after.problem, state, action, next, cost)]
            after.explored@.contains(state) && plan_costs(after.problem, init, plan, state, total)
                && step(after.problem, state, action, next, cost) implies after.within_reach(
            next,
            (plan.len() + 1) as int,
        ) by {
            if self.explored@.contains(state) {
                assert(self.within_reach(next, (plan.len() + 1) as int));
            } else {
                assert(state == node.state);
                self.lemma_shallowest_first(init, handle, plan, state, total);
                assert(after.within_reach(next, node.depth + 1));
            }
        }
        assert(self.within_reach(init, 0));
    }

    /// The plan of a suitable node that came first is a shallowest plan.
    pub proof fn lemma_first_is_shallowest(self, init: P::State, handle: usize)
        requires
            self.level_ideal(init),
            self.frontier.live(handle as int),
            self.first(handle),
            judges(self.problem, self.frontier.entries()[handle as int]->0.state, true),
        ensures
            shallowest(
                self.problem,
                init,
                self.frontier.entries()[handle as int]->0.plan(),
                self.frontier.entries()[handle as int]->0.state,
            ),
    {
        let node = self.frontier.entries()[handle as int]->0;
        assert(self.runs(node, init, None));
        node.lemma_plan_reaches(self.problem);
        assert(plan_costs(self.problem, init, node.plan(), node.state, node.total_cost as int));
        assert forall|other: Seq<P::Action>, other_end: P::State, other_total: int|
            #![trigger plan_costs(self.problem, init, other, other_end, other_total)]
            plan_costs(self.problem, init, other, other_end, other_total) && judges(
                self.problem,
                other_end,
                true,
            ) implies node.plan().len() <= other.len() by {
            self.lemma_shallowest_first(init, handle, other, other_end, other_total);
        }
    }

    /// `state` was expanded, or a live node waits for it.
    pub open spec fn reached(self, state: P::State) -> bool {
        self.explored@.contains(state) || self.frontier.index().contains_key(state)
    }

    /// The search has lost no state: the initial state was reached, no
    /// expanded state is suitable, and every state that a step leads to
    /// from an expanded state was reached.
    pub open spec fn closed(self, init: P::State) -> bool {
        &&& self.reached(init)
        &&& forall|state: P::State| #[trigger]
            self.explored@.contains(state) ==> judges(self.problem, state, false)
        &&& forall|state: P::State, action: P::Action, next: P::State, cost: u64| #[trigger]
            step(self.problem, state, action, next, cost) && self.explored@.contains(state)
                ==> self.reached(next)
    }

    /// Once no live node waits, every state that a plan leads to was
    /// expanded, and so no suitable state can be reached.
    pub proof fn lemma_closed_exhausted(self, init: P::State)
        requires
            self.closed(init),
            self.frontier.index() == Map::<P::State, usize>::empty(),
        ensures
            unsolvable(self.problem, init),
    {
        assert forall|plan: Seq<P::Action>, end: P::State, total: int| #[trigger]
            plan_costs(self.problem, init, plan, end, total) implies !judges(
            self.problem,
            end,
            true,
        ) by {
            self.lemma_closed_reach(init, plan, end, total);
        }
    }

    /// Once no live node waits, every state that a plan leads to was
    /// expanded.
    pub proof fn lemma_closed_reach(
        self,
        init: P::State,
        plan: Seq<P::Action>,
        end: P::State,
        total: int,
    )
        requires
            self.closed(init),
            self.frontier.index() == Map::<P::State, usize>::empty(),
            plan_reaches(self.problem, init, plan, end, total),
        ensures
            self.explored@.contains(end),
        decreases plan.len(),
    {
        if plan.len() == 0 {
            assert(self.reached(init));
        } else {
            let (before, cost) = choose|before: P::State, cost: u64|
                #![trigger step(self.problem, before, plan.last(), end, cost)]
                plan_reaches(self.problem, init, plan.drop_last(), before, total - cost) && step(
                    self.problem,
                    before,
                    plan.last(),
                    end,
                    cost,
                );
            self.lemma_closed_reach(init, plan.drop_last(), before, total - cost);
            assert(self.reached(end));
        }
    }

    /// A round that expands a node which is not suitable loses no state.
    pub proof fn lemma_round_keeps_closed(self, after: Self, init: P::State, handle: usize)
        requires
            self.frontier.wf(),
            self.closed(init),
            self.frontier.live(handle as int),
            after.problem == self.problem,
            judges(self.problem, self.frontier.entries()[handle as int]->0.state, false),
            after.explored@ == self.explored@.insert(
                self.frontier.entries()[handle as int]->0.state,
            ),
            forall|state: P::State, bound: int| #[trigger]
                self.covered(state, bound) ==> after.covered(state, bound),
            forall|action: P::Action, next: P::State, cost: u64| #[trigger]
                step(
                    self.problem,
                    self.frontier.entries()[handle as int]->0.state,
                    action,
                    next,
                    cost,
                ) ==> after.covered(
                    next,
                    self.frontier.entries()[handle as int]->0.total_cost + cost,
                ),
        ensures
            after.closed(init),
    {
        let node = self.frontier.entries()[handle as int]->0;
        assert forall|state: P::State| #[trigger] self.reached(state) implies after.reached(
            state,
        ) by {
            if !self.explored@.contains(state) {
                let waiting = self.frontier.entries()[self.frontier.index()[state] as int]->0;
                assert(self.covered(state, waiting.total_cost as int));
                assert(after.covered(state, waiting.total_cost as int));
            }
        }
        assert forall|state: P::State, action: P::Action, next: P::State, cost: u64| #[trigger]
            step(after.problem, state, action, next, cost) && after.explored@.contains(
                state,
            ) implies after.reached(next) by {
            if self.explored@.contains(state) {
                assert(self.reached(next));
            } else {
                assert(after.covered(next, node.total_cost + cost));
            }
        }
        assert(self.reached(init));
    }

    /// The expanded states are closed off by the frontier: the initial
    /// state is covered at no cost, no expanded state is suitable, and the
    /// state that a step leads to from an expanded state is covered at the
    /// cost of any run that ends with that step.
    pub open spec fn sound(self, init: P::State) -> bool {
        &&& self.covered(init, 0)
        &&& forall|state: P::State| #[trigger]
            self.explored@.contains(state) ==> judges(self.problem, state, false)
        &&& forall|
            state: P::State,
            plan: Seq<P::Action>,
            total: int,
            action: P::Action,
            next: P::State,
            cost: u64,
        |
            #![trigger plan_costs(self.problem, init, plan, state, total), step(self.problem, state, action, next, cost)]
            self.explored@.contains(state) && plan_costs(self.problem, init, plan, state, total)
                && step(self.problem, state, action, next, cost) ==> self.covered(
                next,
                total + cost,
            )
    }

    /// The node under `handle` weighs no more than any live node.
    pub open spec fn lightest(self, informed: bool, handle: usize) -> bool {
        forall|other: usize| #[trigger]
            self.frontier.live(other as int) ==> self.frontier.entries()[handle as int]->0.total_cost
                + potential(
                self.problem,
                informed,
                self.frontier.entries()[handle as int]->0.state,
            ) <= self.frontier.entries()[other as int]->0.total_cost + potential(
                self.problem,
                informed,
                self.frontier.entries()[other as int]->0.state,
            )
    }

    /// The backend's rule puts the node under `handle` before every live
    /// node.
    pub open spec fn first(self, handle: usize) -> bool {
        forall|other: usize| #[trigger]
            self.frontier.live(other as int) ==> Backend::precedes(
                handle,
                Backend::key_of(
                    self.frontier.entries()[handle as int]->0.total_cost,
                    self.frontier.entries()[handle as int]->0.heuristic,
                ),
                other,
                Backend::key_of(
                    self.frontier.entries()[other as int]->0.total_cost,
                    self.frontier.entries()[other as int]->0.heuristic,
                ),
            )
    }

    /// The search is on its way to a cheapest plan from `init`: it runs
    /// without a bound on a problem with a consistent estimate, every
    /// waiting node records a run from `init`, the expanded states are
    /// closed off, and the backend orders by weight.
    pub open spec fn ideal(self, init: P::State, informed: bool) -> bool {
        &&& self.tracks(init, None)
        &&& self.sound(init)
        &&& consistent(self.problem, informed)
        &&& orders_by::<Backend>(informed)
    }

    /// What the live node that waits for `state` weighs.
    pub open spec fn weight(self, informed: bool, state: P::State) -> int {
        self.frontier.entries()[self.frontier.index()[state] as int]->0.total_cost + potential(
            self.problem,
            informed,
            state,
        )
    }

    /// Every run from the initial state ends in an expanded state, or a
    /// live node waits that weighs no more than the run.
    pub proof fn lemma_reach(
        self,
        init: P::State,
        informed: bool,
        plan: Seq<P::Action>,
        end: P::State,
        total: int,
    )
        requires
            self.sound(init),
            consistent(self.problem, informed),
            plan_costs(self.problem, init, plan, end, total),
        ensures
            self.explored@.contains(end) || exists|via: P::State|
                self.frontier.index().contains_key(via) && #[trigger] self.weight(informed, via)
                    <= total + potential(self.problem, informed, end),
        decreases plan.len(),
    {
        if plan.len() == 0 {
            if !self.explored@.contains(end) {
                assert(self.frontier.index().contains_key(init));
                assert(self.weight(informed, init) <= total + potential(
                    self.problem,
                    informed,
                    end,
                ));
            }
        } else {
            let (before, cost) = choose|before: P::State, cost: u64|
                #![trigger step(self.problem, before, plan.last(), end, cost)]
                plan_reaches(self.problem, init, plan.drop_last(), before, total - cost) && step(
                    self.problem,
                    before,
                    plan.last(),
                    end,
                    cost,
                );
            assert(plan_costs(self.problem, init, plan.drop_last(), before, total - cost));
            self.lemma_reach(init, informed, plan.drop_last(), before, total - cost);
            if self.explored@.contains(before) {
                assert(self.covered(end, total - cost + cost));
                if !self.explored@.contains(end) {
                    assert(self.weight(informed, end) <= total + potential(
                        self.problem,
                        informed,
                        end,
                    ));
                }
            } else {
                let via = choose|via: P::State|
                    self.frontier.index().contains_key(via) && #[trigger] self.weight(
                        informed,
                        via,
                    ) <= total - cost + potential(self.problem, informed, before);
                assert(self.weight(informed, via) <= total + potential(
                    self.problem,
                    informed,
                    end,
                ));
            }
        }
    }

    /// What a waiting node weighs is the key that a backend which orders by
    /// weight keeps it under.
    pub proof fn lemma_weight_is_key(self, init: P::State, informed: bool, handle: usize)
        requires
            self.tracks(init, None),
            orders_by::<Backend>(informed),
            self.frontier.waits(handle as int),
        ensures
            Backend::key_of(
                self.frontier.entries()[handle as int]->0.total_cost,
                self.frontier.entries()[handle as int]->0.heuristic,
            ) == self.frontier.entries()[handle as int]->0.total_cost + potential(
                self.problem,
                informed,
                self.frontier.entries()[handle as int]->0.state,
            ),
    {
        let node = self.frontier.entries()[handle as int]->0;
        assert(self.runs(node, init, None));
        lemma_cost_limit(node.depth);
        assert(estimates(self.problem, node.state, node.heuristic));
    }

    /// The node that goes first is the lightest.
    pub proof fn lemma_first_is_lightest(self, init: P::State, informed: bool, handle: usize)
        requires
            self.ideal(init, informed),
            self.frontier.live(handle as int),
            self.first(handle),
        ensures
            self.lightest(informed, handle),
    {
        assert forall|other: usize| #[trigger]
            self.frontier.live(other as int) implies self.frontier.entries()[handle as int]->0.total_cost
            + potential(
            self.problem,
            informed,
            self.frontier.entries()[handle as int]->0.state,
        ) <= self.frontier.entries()[other as int]->0.total_cost + potential(
            self.problem,
            informed,
            self.frontier.entries()[other as int]->0.state,
        ) by {
            self.lemma_weight_is_key(init, informed, handle);
            self.lemma_weight_is_key(init, informed, other);
        }
    }

    /// The lightest node weighs no more than any run from the initial state
    /// to a state that was not expanded.
    pub proof fn lemma_lightest(
        self,
        init: P::State,
        informed: bool,
        handle: usize,
        plan: Seq<P::Action>,
        end: P::State,
        total: int,
    )
        requires
            self.frontier.wf(),
            self.sound(init),
            consistent(self.problem, informed),
            self.frontier.live(handle as int),
            self.lightest(informed, handle),
            plan_costs(self.problem, init, plan, end, total),
            !self.explored@.contains(end),
        ensures
            self.frontier.entries()[handle as int]->0.total_cost + potential(
                self.problem,
                informed,
                self.frontier.entries()[handle as int]->0.state,
            ) <= total + potential(self.problem, informed, end),
    {
        self.lemma_reach(init, informed, plan, end, total);
        let via = choose|via: P::State|
            self.frontier.index().contains_key(via) && #[trigger] self.weight(informed, via)
                <= total + potential(self.problem, informed, end);
        let other = self.frontier.index()[via];
        assert(self.frontier.live(other as int));
    }

    /// A round that expands the lightest node keeps the expanded states
    /// closed off.
    pub proof fn lemma_round_keeps_sound(
        self,
        after: Self,
        init: P::State,
        informed: bool,
        handle: usize,
    )
        requires
            self.frontier.wf(),
            self.sound(init),
            consistent(self.problem, informed),
            self.frontier.live(handle as int),
            self.lightest(informed, handle),
            after.problem == self.problem,
            judges(self.problem, self.frontier.entries()[handle as int]->0.state, false),
            after.explored@ == self.explored@.insert(
                self.frontier.entries()[handle as int]->0.state,
            ),
            forall|state: P::State, bound: int| #[trigger]
                self.covered(state, bound) ==> after.covered(state, bound),
            forall|action: P::Action, next: P::State, cost: u64| #[trigger]
                step(
                    self.problem,
                    self.frontier.entries()[handle as int]->0.state,
                    action,
                    next,
                    cost,
                ) ==> after.covered(
                    next,
                    self.frontier.entries()[handle as int]->0.total_cost + cost,
                ),
        ensures
            after.sound(init),
    {
        let node = self.frontier.entries()[handle as int]->0;
        assert forall|
            state: P::State,
            plan: Seq<P::Action>,
            total: int,
            action: P::Action,
            next: P::State,
            cost: u64,
        |
            #![trigger plan_costs(after.problem, init, plan, state, total), step(after.problem, state, action, next, cost)]
            after.explored@.contains(state) && plan_costs(after.problem, init, plan, state, total)
                && step(after.problem, state, action, next, cost) implies after.covered(
            next,
            total + cost,
        ) by {
            if self.explored@.contains(state) {
                assert(self.covered(next, total + cost));
            } else {
                assert(state == node.state);
                self.lemma_lightest(init, informed, handle, plan, state, total);
                assert(node.total_cost <= total);
                assert(after.covered(next, node.total_cost + cost));
            }
        }
        assert(self.covered(init, 0));
    }
}

} // verus!
