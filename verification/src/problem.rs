//! What the engine asks of a problem, and how it speaks of the answers.
//!
//! The engine never looks inside a state, an action or a problem: all it
//! knows of a problem is what its methods answer. A problem is a graph, and
//! its methods are functions: asked again of the same state, or of the same
//! state and action, they answer as before. Each trait therefore names what
//! its methods answer, and each method promises to answer just that. An
//! implementation that is verified says what the names stand for and proves
//! the promise. One that is not leaves the names as they are, and its promise
//! is taken on trust: what the engine proves holds of the graph that its
//! answers describe.
use vstd::prelude::*;

verus! {

/// A search problem names the states it ranges over.
pub trait Problem {
    type State;
}

/// A problem whose solutions are built one action at a time.
pub trait CostructSolution: Problem {
    type Action;

    /// What `executable_actions` answers for `state`.
    open spec fn actions(&self, state: Self::State) -> Seq<Self::Action> {
        arbitrary()
    }

    /// What `result` answers for `action` in `state`.
    open spec fn outcome(&self, state: Self::State, action: Self::Action) -> (Self::State, u64) {
        arbitrary()
    }

    /// The actions that can be taken in `state`, in the order in which they
    /// are to be tried.
    fn executable_actions(&self, state: &Self::State) -> (listed: Vec<Self::Action>)
        ensures
            listed@ == self.actions(*state),
    ;

    /// The state that `action` leads to from `state`, and the cost of that
    /// one step.
    fn result(&self, state: &Self::State, action: &Self::Action) -> (answer: (Self::State, u64))
        ensures
            answer == self.outcome(*state, *action),
    ;
}

/// A problem that can estimate the cost that remains from a state.
pub trait Utility: CostructSolution {
    /// What `heuristic` answers for `state`.
    open spec fn estimate(&self, state: Self::State) -> u64 {
        arbitrary()
    }

    fn heuristic(&self, state: &Self::State) -> (answer: u64)
        ensures
            answer == self.estimate(*state),
    ;
}

/// A problem that can tell the states it is looking for.
pub trait SuitableState: Problem {
    /// What `is_suitable` answers for `state`.
    open spec fn suitable(&self, state: Self::State) -> bool {
        arbitrary()
    }

    fn is_suitable(&self, state: &Self::State) -> (answer: bool)
        ensures
            answer == self.suitable(*state),
    ;
}

/// What a state explorer asks of a problem: steps to take, an estimate of
/// what remains, and a test for the states it is looking for.
pub trait StateExplorerProblem: Utility + SuitableState {

}

impl<T: Utility + SuitableState> StateExplorerProblem for T {

}

/// A problem that names the state in which every attempt starts.
pub trait InitState: Problem {
    fn init_state(&self) -> Self::State;
}

/// Where the states have a default, every attempt starts there.
impl<T: Problem> InitState for T where T::State: Default {
    /// The state that `Default::default` gives for the states of the
    /// problem.
    fn init_state(&self) -> (state: Self::State)
        ensures
            call_ensures(<T::State>::default, (), state),
    {
        Default::default()
    }
}

/// `executable_actions` answers `actions` for `state`.
pub open spec fn lists<P: CostructSolution>(
    problem: &P,
    state: P::State,
    actions: Seq<P::Action>,
) -> bool {
    problem.actions(state) == actions
}

/// `executable_actions` lists `action` for `state`.
pub open spec fn offers<P: CostructSolution>(problem: &P, state: P::State, action: P::Action) -> bool {
    problem.actions(state).contains(action)
}

/// `result` answers `(next, cost)` for `action` in `state`.
pub open spec fn transition<P: CostructSolution>(
    problem: &P,
    state: P::State,
    action: P::Action,
    next: P::State,
    cost: u64,
) -> bool {
    problem.outcome(state, action) == (next, cost)
}

/// One step of a plan: `action` is offered in `state`, and leads to `next`
/// at `cost`.
pub open spec fn step<P: CostructSolution>(
    problem: &P,
    state: P::State,
    action: P::Action,
    next: P::State,
    cost: u64,
) -> bool {
    offers(problem, state, action) && transition(problem, state, action, next, cost)
}

/// `heuristic` answers `estimate` for `state`.
pub open spec fn estimates<P: Utility>(problem: &P, state: P::State, estimate: u64) -> bool {
    problem.estimate(state) == estimate
}

/// `is_suitable` answers `verdict` for `state`.
pub open spec fn judges<P: SuitableState>(problem: &P, state: P::State, verdict: bool) -> bool {
    problem.suitable(state) == verdict
}

/// Taking the actions of `plan` in turn, starting in `init`, ends in `end`,
/// and the costs of the steps add up to `total`.
pub open spec fn plan_reaches<P: CostructSolution>(
    problem: &P,
    init: P::State,
    plan: Seq<P::Action>,
    end: P::State,
    total: int,
) -> bool
    decreases plan.len(),
{
    if plan.len() == 0 {
        end == init && total == 0
    } else {
        exists|before: P::State, cost: u64|
            #![trigger step(problem, before, plan.last(), end, cost)]
            plan_reaches(problem, init, plan.drop_last(), before, total - cost) && step(
                problem,
                before,
                plan.last(),
                end,
                cost,
            )
    }
}

/// A plan that is taken one step further leads to where the step leads, at
/// the cost of both together.
pub proof fn lemma_plan_extends<P: CostructSolution>(
    problem: &P,
    init: P::State,
    plan: Seq<P::Action>,
    before: P::State,
    total: int,
    action: P::Action,
    next: P::State,
    cost: u64,
)
    requires
        plan_reaches(problem, init, plan, before, total),
        step(problem, before, action, next, cost),
    ensures
        plan_reaches(problem, init, plan.push(action), next, total + cost),
{
    let longer = plan.push(action);
    assert(longer.drop_last() == plan);
    assert(longer.last() == action);
    assert(plan_reaches(problem, init, longer.drop_last(), before, total + cost - cost));
    assert(step(problem, before, longer.last(), next, cost));
}

/// A plan leads to one state at one cost.
pub proof fn lemma_plan_unique<P: CostructSolution>(
    problem: &P,
    init: P::State,
    plan: Seq<P::Action>,
    first: P::State,
    first_total: int,
    second: P::State,
    second_total: int,
)
    requires
        plan_reaches(problem, init, plan, first, first_total),
        plan_reaches(problem, init, plan, second, second_total),
    ensures
        first == second,
        first_total == second_total,
    decreases plan.len(),
{
    if plan.len() > 0 {
        let (b1, c1) = choose|before: P::State, cost: u64|
            #![trigger step(problem, before, plan.last(), first, cost)]
            plan_reaches(problem, init, plan.drop_last(), before, first_total - cost) && step(
                problem,
                before,
                plan.last(),
                first,
                cost,
            );
        let (b2, c2) = choose|before: P::State, cost: u64|
            #![trigger step(problem, before, plan.last(), second, cost)]
            plan_reaches(problem, init, plan.drop_last(), before, second_total - cost) && step(
                problem,
                before,
                plan.last(),
                second,
                cost,
            );
        lemma_plan_unique(
            problem,
            init,
            plan.drop_last(),
            b1,
            first_total - c1,
            b2,
            second_total - c2,
        );
    }
}

/// The first actions of a plan are a plan too, and cost no more than the
/// whole.
pub proof fn lemma_plan_prefix<P: CostructSolution>(
    problem: &P,
    init: P::State,
    plan: Seq<P::Action>,
    end: P::State,
    total: int,
    count: int,
)
    requires
        plan_reaches(problem, init, plan, end, total),
        0 <= count <= plan.len(),
    ensures
        0 <= total,
        exists|mid: P::State, paid: int|
            0 <= paid <= total && #[trigger] plan_costs(
                problem,
                init,
                plan.take(count),
                mid,
                paid,
            ) && plan_costs(problem, mid, plan.skip(count), end, total - paid),
    decreases plan.len(),
{
    if count == plan.len() {
        assert(plan.take(count) == plan);
        assert(plan.skip(count) == Seq::<P::Action>::empty());
        if plan.len() > 0 {
            let (before, cost) = choose|before: P::State, cost: u64|
                #![trigger step(problem, before, plan.last(), end, cost)]
                plan_reaches(problem, init, plan.drop_last(), before, total - cost) && step(
                    problem,
                    before,
                    plan.last(),
                    end,
                    cost,
                );
            lemma_plan_prefix(problem, init, plan.drop_last(), before, total - cost, 0);
        }
        assert(plan_costs(problem, init, plan.take(count), end, total));
        assert(plan_costs(problem, end, plan.skip(count), end, total - total));
    } else {
        let (before, cost) = choose|before: P::State, cost: u64|
            #![trigger step(problem, before, plan.last(), end, cost)]
            plan_reaches(problem, init, plan.drop_last(), before, total - cost) && step(
                problem,
                before,
                plan.last(),
                end,
                cost,
            );
        lemma_plan_prefix(problem, init, plan.drop_last(), before, total - cost, count);
        let (mid, paid) = choose|mid: P::State, paid: int|
            0 <= paid <= total - cost && #[trigger] plan_costs(
                problem,
                init,
                plan.drop_last().take(count),
                mid,
                paid,
            ) && plan_costs(
                problem,
                mid,
                plan.drop_last().skip(count),
                before,
                total - cost - paid,
            );
        assert(plan.drop_last().take(count) == plan.take(count));
        lemma_plan_extends(
            problem,
            mid,
            plan.drop_last().skip(count),
            before,
            total - cost - paid,
            plan.last(),
            end,
            cost,
        );
        assert(plan.drop_last().skip(count).push(plan.last()) == plan.skip(count));
        assert(plan_costs(problem, init, plan.take(count), mid, paid));
        assert(plan_costs(problem, mid, plan.skip(count), end, total - paid));
    }
}

/// `plan` leads from `init` to `end` at the cost of `total`: `plan_reaches`
/// under a name that is not unfolded.
pub open spec fn plan_costs<P: CostructSolution>(
    problem: &P,
    init: P::State,
    plan: Seq<P::Action>,
    end: P::State,
    total: int,
) -> bool {
    plan_reaches(problem, init, plan, end, total)
}

/// `plan` leads from `init` to `end`, at some cost.
pub open spec fn leads<P: CostructSolution>(
    problem: &P,
    init: P::State,
    plan: Seq<P::Action>,
    end: P::State,
) -> bool {
    exists|total: int| #[trigger] plan_costs(problem, init, plan, end, total)
}

/// What a state adds to the cost of a node when the frontier weighs it: the
/// problem's estimate for the state where the search is `informed`, nothing
/// where it is not.
pub open spec fn potential<P: Utility>(problem: &P, informed: bool, state: P::State) -> int {
    if informed {
        problem.estimate(state) as int
    } else {
        0
    }
}

/// The estimate is consistent: it does not fall by more than a step costs,
/// and it is 0 in every suitable state. Such an estimate never exceeds the
/// cost that remains. A search that is not informed asks nothing of the
/// estimate.
pub open spec fn consistent<P: Utility + SuitableState>(problem: &P, informed: bool) -> bool {
    &&& forall|state: P::State, action: P::Action, next: P::State, cost: u64| #[trigger]
        step(problem, state, action, next, cost) ==> potential(problem, informed, state) <= cost
            + potential(problem, informed, next)
    &&& forall|state: P::State| #[trigger]
        judges(problem, state, true) ==> potential(problem, informed, state) == 0
}

/// The estimate is admissible: it never exceeds the cost of a plan that
/// leads from the state to a suitable one. A search that is not informed
/// asks nothing of the estimate.
pub open spec fn admissible<P: Utility + SuitableState>(problem: &P, informed: bool) -> bool {
    forall|state: P::State, plan: Seq<P::Action>, end: P::State, total: int| #[trigger]
        plan_costs(problem, state, plan, end, total) && judges(problem, end, true) ==> potential(
            problem,
            informed,
            state,
        ) <= total
}

/// `plan` leads from `init` to `end`, which is suitable, and no plan leads
/// from `init` to a suitable state at a lower cost.
pub open spec fn cheapest<P: Utility + SuitableState>(
    problem: &P,
    init: P::State,
    plan: Seq<P::Action>,
    end: P::State,
) -> bool {
    exists|total: int|
        {
            &&& #[trigger] plan_costs(problem, init, plan, end, total)
            &&& judges(problem, end, true)
            &&& forall|other: Seq<P::Action>, other_end: P::State, other_total: int|
                #![trigger plan_costs(problem, init, other, other_end, other_total)]
                plan_costs(problem, init, other, other_end, other_total) && judges(
                    problem,
                    other_end,
                    true,
                ) ==> total <= other_total
        }
}

/// No plan leads from `init` to a suitable state.
pub open spec fn unsolvable<P: Utility + SuitableState>(problem: &P, init: P::State) -> bool {
    forall|plan: Seq<P::Action>, end: P::State, total: int| #[trigger]
        plan_costs(problem, init, plan, end, total) ==> !judges(problem, end, true)
}

/// No plan that respects the bound `lim` leads from `init` to a suitable
/// state.
pub open spec fn unsolvable_within<P: Utility + SuitableState>(
    problem: &P,
    init: P::State,
    lim: Option<usize>,
) -> bool {
    forall|plan: Seq<P::Action>, end: P::State, total: int| #[trigger]
        plan_costs(problem, init, plan, end, total) && (lim matches Some(bound) ==> plan.len()
            <= bound) ==> !judges(problem, end, true)
}

/// Every step of the problem costs `cost`.
pub open spec fn uniform<P: CostructSolution>(problem: &P, cost: u64) -> bool {
    forall|state: P::State, action: P::Action, next: P::State, paid: u64| #[trigger]
        step(problem, state, action, next, paid) ==> paid == cost
}

/// `plan` leads from `init` to `end`, which is suitable, and no plan that
/// leads from `init` to a suitable state is shorter.
pub open spec fn shallowest<P: Utility + SuitableState>(
    problem: &P,
    init: P::State,
    plan: Seq<P::Action>,
    end: P::State,
) -> bool {
    &&& leads(problem, init, plan, end)
    &&& judges(problem, end, true)
    &&& forall|other: Seq<P::Action>, other_end: P::State, other_total: int|
        #![trigger plan_costs(problem, init, other, other_end, other_total)]
        plan_costs(problem, init, other, other_end, other_total) && judges(
            problem,
            other_end,
            true,
        ) ==> plan.len() <= other.len()
}

/// Where every step costs the same, a shallowest plan is a cheapest plan.
pub proof fn lemma_shallowest_is_cheapest<P: Utility + SuitableState>(
    problem: &P,
    cost: u64,
    init: P::State,
    plan: Seq<P::Action>,
    end: P::State,
)
    requires
        uniform(problem, cost),
        shallowest(problem, init, plan, end),
    ensures
        cheapest(problem, init, plan, end),
{
    let total = choose|total: int| #[trigger] plan_costs(problem, init, plan, end, total);
    lemma_uniform_plan_cost(problem, cost, init, plan, end, total);
    assert forall|other: Seq<P::Action>, other_end: P::State, other_total: int|
        #![trigger plan_costs(problem, init, other, other_end, other_total)]
        plan_costs(problem, init, other, other_end, other_total) && judges(
            problem,
            other_end,
            true,
        ) implies total <= other_total by {
        lemma_uniform_plan_cost(problem, cost, init, other, other_end, other_total);
        assert(cost * plan.len() <= cost * other.len()) by (nonlinear_arith)
            requires
                plan.len() <= other.len(),
                0 <= cost,
        ;
    }
}

/// Where every step costs `cost`, a plan costs that much for each of its
/// actions.
pub proof fn lemma_uniform_plan_cost<P: CostructSolution>(
    problem: &P,
    cost: u64,
    init: P::State,
    plan: Seq<P::Action>,
    end: P::State,
    total: int,
)
    requires
        uniform(problem, cost),
        plan_reaches(problem, init, plan, end, total),
    ensures
        total == cost * plan.len(),
    decreases plan.len(),
{
    if plan.len() > 0 {
        let (before, paid) = choose|before: P::State, paid: u64|
            #![trigger step(problem, before, plan.last(), end, paid)]
            plan_reaches(problem, init, plan.drop_last(), before, total - paid) && step(
                problem,
                before,
                plan.last(),
                end,
                paid,
            );
        lemma_uniform_plan_cost(problem, cost, init, plan.drop_last(), before, total - paid);
        assert(cost * (plan.len() - 1) + cost == cost * plan.len()) by (nonlinear_arith);
    } else {
        assert(cost * 0 == 0) by (nonlinear_arith);
    }
}

/// No action that can be taken in a state leads back to that state.
pub open spec fn irreflexive<P: CostructSolution>(problem: &P) -> bool {
    forall|state: P::State, action: P::Action, cost: u64|
        !#[trigger] step(problem, state, action, state, cost)
}

/// A clone of a `T` is the value it was made from.
pub open spec fn clones_exactly<T: Clone>() -> bool {
    forall|source: T, copy: T| #[trigger] cloned::<T>(source, copy) ==> copy == source
}

} // verus!
