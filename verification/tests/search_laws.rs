use agent::explorer::{
    AStarExplorer, BFSExplorer, BestFirstGreedyExplorer, DFSExplorer, Explorer, InnerResult,
    MinCostExplorer, SearchResult, Verbosity,
};
use agent::backend::DequeBackend;
use agent::problem::{CostructSolution, InitState, Problem, SuitableState, Utility};
use agent::tree::{AStarTreeExplorer, BFSTreeExplorer, DFSTreeExplorer, MinTreeCostExplorer};
use bumpalo::Bump;
use std::cell::RefCell;
use std::time::Instant;

/// A graph given by its edges: from each node, in order, the nodes that can
/// be reached and what that costs. An action is the place of an edge in the
/// list of its node. The graph records which nodes were asked for their
/// edges and which were tested, in the order of the questions.
struct Table {
    edges: Vec<Vec<(usize, u64)>>,
    goals: Vec<usize>,
    estimate: Vec<u64>,
    expanded: RefCell<Vec<usize>>,
    tested: RefCell<Vec<usize>>,
}

impl Table {
    fn new(edges: Vec<Vec<(usize, u64)>>, goals: Vec<usize>, estimate: Vec<u64>) -> Self {
        Self { edges, goals, estimate, expanded: RefCell::new(vec![]), tested: RefCell::new(vec![]) }
    }

    /// The nodes passed and the cost paid when `plan` is taken from `init`.
    fn walk(&self, init: usize, plan: &[usize]) -> (Vec<usize>, u64) {
        let mut state = init;
        let mut passed = vec![init];
        let mut total = 0;
        for action in plan {
            let (next, cost) = self.edges[state][*action];
            state = next;
            total += cost;
            passed.push(state);
        }
        (passed, total)
    }
}

impl Problem for Table {
    type State = usize;
}

impl CostructSolution for Table {
    type Action = usize;

    fn executable_actions(&self, state: &usize) -> Vec<usize> {
        self.expanded.borrow_mut().push(*state);
        (0..self.edges[*state].len()).collect()
    }

    fn result(&self, state: &usize, action: &usize) -> (usize, u64) {
        self.edges[*state][*action]
    }
}

impl Utility for Table {
    fn heuristic(&self, state: &usize) -> u64 {
        self.estimate[*state]
    }
}

impl SuitableState for Table {
    fn is_suitable(&self, state: &usize) -> bool {
        self.tested.borrow_mut().push(*state);
        self.goals.contains(state)
    }
}

/// 0 -> 1 -> 2 -> ... -> `len - 1`, each step at the cost 1; the last node
/// is the goal.
fn chain(len: usize) -> Table {
    let mut edges = vec![];
    for node in 0..len {
        if node + 1 < len {
            edges.push(vec![(node + 1, 1)]);
        } else {
            edges.push(vec![]);
        }
    }
    Table::new(edges, vec![len - 1], vec![0; len])
}

/// Two ways from 0 to the goal 4: over 1 in two steps at the cost 10 each,
/// or over 2 and 3 in three steps at the cost 1 each.
fn two_ways() -> Table {
    Table::new(
        vec![vec![(1, 10), (2, 1)], vec![(4, 10)], vec![(3, 1)], vec![(4, 1)], vec![]],
        vec![4],
        vec![3, 10, 2, 1, 0],
    )
}

/// 0: S, 1: A, 2: B, 3: C, 4: G. The estimate of A is 5, which is less than
/// the 6 that remain from A, but more than the cost 1 of the step to C
/// together with the estimate 0 of C: so it never overestimates, and is not
/// consistent.
fn misleading() -> Table {
    Table::new(
        vec![vec![(1, 1), (2, 1)], vec![(3, 1)], vec![(3, 2)], vec![(4, 5)], vec![]],
        vec![4],
        vec![0, 5, 0, 0, 0],
    )
}

#[test]
fn plan_leads_to_the_state_reported() {
    let graph = two_ways();
    let arena = Bump::new();
    let mut explorer = DFSExplorer::new(&graph, &arena);
    let result = explorer.search(0);
    let plan = result.actions.unwrap();
    let (passed, _) = graph.walk(0, &plan);
    assert_eq!(passed.last().copied(), result.state);
    assert_eq!(result.state, Some(4));
}

#[test]
fn breadth_first_finds_a_shallowest_plan() {
    // every step costs 1: 0 -> 1 -> 2 -> 3 -> 5 and 0 -> 4 -> 5
    let graph = Table::new(
        vec![vec![(1, 1), (4, 1)], vec![(2, 1)], vec![(3, 1)], vec![(5, 1)], vec![(5, 1)], vec![]],
        vec![5],
        vec![0; 6],
    );
    let arena = Bump::new();
    let mut bfs = BFSExplorer::new(&graph, &arena);
    let shallow = bfs.search(0);
    assert_eq!(graph.walk(0, &shallow.actions.unwrap()), (vec![0, 4, 5], 2));
    let mut dfs = DFSExplorer::new(&graph, &arena);
    let deep = dfs.search(0);
    assert_eq!(graph.walk(0, &deep.actions.unwrap()).0, vec![0, 4, 5]);
}

#[test]
fn breadth_first_is_not_cheapest_where_costs_differ() {
    let graph = two_ways();
    let arena = Bump::new();
    let mut explorer = BFSExplorer::new(&graph, &arena);
    let result = explorer.search(0);
    assert_eq!(graph.walk(0, &result.actions.unwrap()), (vec![0, 1, 4], 20));
}

#[test]
fn uniform_cost_finds_a_cheapest_plan() {
    let graph = two_ways();
    let arena = Bump::new();
    let mut explorer = MinCostExplorer::new(&graph, &arena);
    let result = explorer.search(0);
    assert_eq!(graph.walk(0, &result.actions.unwrap()), (vec![0, 2, 3, 4], 3));
    assert!(!explorer.stalled);
}

#[test]
fn a_star_finds_a_cheapest_plan_with_a_consistent_estimate() {
    let graph = two_ways();
    let arena = Bump::new();
    let mut explorer = AStarExplorer::new(&graph, &arena);
    let result = explorer.search(0);
    assert_eq!(graph.walk(0, &result.actions.unwrap()), (vec![0, 2, 3, 4], 3));
    // 1 is never expanded: its weight of 20 is more than that of the goal
    assert_eq!(*graph.expanded.borrow(), vec![0, 2, 3]);
}

#[test]
fn a_star_can_miss_the_cheapest_plan_with_an_estimate_that_is_not_consistent() {
    let graph = misleading();
    let arena = Bump::new();
    let mut a_star = AStarExplorer::new(&graph, &arena);
    let found = a_star.search(0);
    assert_eq!(graph.walk(0, &found.actions.unwrap()), (vec![0, 2, 3, 4], 8));
    let mut uniform = MinCostExplorer::new(&graph, &arena);
    let best = uniform.search(0);
    assert_eq!(graph.walk(0, &best.actions.unwrap()), (vec![0, 1, 3, 4], 7));
}

#[test]
fn greedy_follows_the_estimate() {
    let graph = two_ways();
    let arena = Bump::new();
    let mut explorer = BestFirstGreedyExplorer::new(&graph, &arena);
    let result = explorer.search(0);
    // the estimate 2 of node 2 is smaller than the estimate 10 of node 1
    assert_eq!(graph.walk(0, &result.actions.unwrap()), (vec![0, 2, 3, 4], 3));
}

#[test]
fn no_state_is_withdrawn_twice_without_loops() {
    // a diamond with a way back: 0 -> 1, 0 -> 2, 1 -> 3, 2 -> 3, 3 -> 0, 3 -> 4
    let graph = Table::new(
        vec![vec![(1, 1), (2, 1)], vec![(3, 1)], vec![(3, 1)], vec![(0, 1), (4, 1)], vec![]],
        vec![4],
        vec![0; 5],
    );
    let arena = Bump::new();
    let mut explorer = BFSExplorer::new(&graph, &arena);
    let result = explorer.search(0);
    assert_eq!(graph.walk(0, &result.actions.unwrap()).0, vec![0, 1, 3, 4]);
    assert_eq!(*graph.tested.borrow(), vec![0, 1, 2, 3, 4]);
}

#[test]
fn a_state_with_a_loop_is_withdrawn_again() {
    // 0 -> 0 and 0 -> 1; 1 is the goal, and the loop is tried first
    let graph = Table::new(vec![vec![(0, 1), (1, 1)], vec![]], vec![1], vec![0; 2]);
    let arena = Bump::new();
    let mut explorer = BFSExplorer::new(&graph, &arena);
    let result = explorer.search(0);
    assert_eq!(result.actions, Some(vec![1]));
    assert_eq!(*graph.tested.borrow(), vec![0, 0, 1]);
    assert_eq!(result.n_iter, 3);
}

#[test]
fn no_node_at_the_bound_is_expanded() {
    let graph = chain(6);
    let arena = Bump::new();
    let mut explorer = DFSExplorer::new(&graph, &arena);
    let result = explorer.search_with_max_depth(0, 3);
    assert!(result.actions.is_none());
    assert!(result.state.is_none());
    assert_eq!(*graph.expanded.borrow(), vec![0, 1, 2]);
    assert_eq!(*graph.tested.borrow(), vec![0, 1, 2, 3]);
    assert_eq!(result.n_iter, 4);
    assert!(!explorer.stalled);
}

#[test]
fn a_bound_of_nothing_tests_the_start_alone() {
    let graph = chain(3);
    let arena = Bump::new();
    let mut explorer = BFSExplorer::new(&graph, &arena);
    let result = explorer.search_with_max_depth(0, 0);
    assert!(result.actions.is_none());
    assert_eq!(result.n_iter, 1);
    assert_eq!(result.max_frontier_size, 0);
    assert!(graph.expanded.borrow().is_empty());
    assert!(!explorer.stalled);
    // nothing is kept in the arena under the bound 0, so its room does not matter
    arena.set_allocation_limit(Some(0));
    let again = explorer.search_with_max_depth(0, 0);
    assert_eq!((again.n_iter, again.max_frontier_size), (1, 0));
    assert!(!explorer.stalled);
    let mut tree = BFSTreeExplorer::new(&graph, &arena);
    let bare = tree.search_with_max_depth(0, 0);
    assert!(bare.actions.is_none());
    assert_eq!((bare.n_iter, bare.max_frontier_size), (1, 0));
    assert!(!tree.stalled);
}

#[test]
fn the_bound_that_reaches_the_goal_finds_it() {
    let graph = chain(6);
    let arena = Bump::new();
    let mut explorer = DFSExplorer::new(&graph, &arena);
    assert!(explorer.search_with_max_depth(0, 4).actions.is_none());
    let result = explorer.search_with_max_depth(0, 5);
    assert_eq!(result.actions, Some(vec![0, 0, 0, 0, 0]));
    assert_eq!(result.state, Some(5));
    assert_eq!(result.n_iter, 6);
}

#[test]
fn deepening_finds_what_some_bound_finds() {
    let graph = chain(6);
    let arena = Bump::new();
    let mut explorer = DFSExplorer::new(&graph, &arena);
    let result = explorer.iterative_search(0, 10);
    assert_eq!(result.actions, Some(vec![0, 0, 0, 0, 0]));
    assert_eq!(result.state, Some(5));
    // the attempt under the bound 5 withdrew 6 nodes
    assert_eq!(result.n_iter, 6);
    assert_eq!(result.max_frontier_size, 1);
    // the attempts under the bounds 1 to 5 tested 2, 3, 4, 5 and 6 nodes
    assert_eq!(graph.tested.borrow().len(), 20);
}

#[test]
fn deepening_gives_up_at_its_ceiling() {
    let graph = chain(6);
    let arena = Bump::new();
    let mut explorer = DFSExplorer::new(&graph, &arena);
    let result = explorer.iterative_search(0, 4);
    assert!(result.actions.is_none());
    assert!(result.state.is_none());
    // the attempt under the bound 4 withdrew 5 nodes
    assert_eq!(result.n_iter, 5);
    assert_eq!(graph.tested.borrow().len(), 14);
}

#[test]
fn deepening_under_no_ceiling_tries_nothing() {
    let graph = chain(6);
    let arena = Bump::new();
    let mut explorer = DFSExplorer::new(&graph, &arena);
    let result = explorer.iterative_search(0, 0);
    assert!(result.actions.is_none());
    assert_eq!(result.n_iter, 0);
    assert_eq!(result.max_frontier_size, 0);
    assert!(graph.tested.borrow().is_empty());
}

#[test]
fn a_suitable_start_needs_no_action() {
    let graph = Table::new(vec![vec![(0, 1)]], vec![0], vec![0]);
    let arena = Bump::new();
    let mut explorer = MinCostExplorer::new(&graph, &arena);
    let result = explorer.search(0);
    assert_eq!(result.actions, Some(vec![]));
    assert_eq!(result.state, Some(0));
    assert_eq!(result.n_iter, 1);
    assert_eq!(result.max_frontier_size, 0);
    let again = explorer.iterative_search(0, 3);
    assert_eq!(again.actions, Some(vec![]));
    assert_eq!(again.n_iter, 1);
}

#[test]
fn a_search_without_a_goal_exhausts_the_frontier() {
    let graph = Table::new(vec![vec![(1, 1)], vec![(2, 1)], vec![(0, 1)]], vec![], vec![0; 3]);
    let arena = Bump::new();
    let mut explorer = MinCostExplorer::new(&graph, &arena);
    let result = explorer.search(0);
    assert!(result.actions.is_none());
    assert!(result.state.is_none());
    assert_eq!(result.n_iter, 3);
    assert_eq!(result.max_frontier_size, 1);
    assert!(!explorer.stalled);
}

#[test]
fn a_search_without_room_stalls() {
    let graph = chain(4);
    let arena = Bump::new();
    arena.set_allocation_limit(Some(0));
    let mut explorer = BFSExplorer::new(&graph, &arena);
    let result = explorer.search(0);
    assert!(result.actions.is_none());
    assert_eq!(result.n_iter, 1);
    assert!(explorer.stalled);
    assert!(graph.expanded.borrow().is_empty());
}

#[test]
fn the_frontier_at_its_largest_is_reported() {
    // 0 has four successors, none of which has any
    let graph = Table::new(
        vec![vec![(1, 1), (2, 1), (3, 1), (4, 1)], vec![], vec![], vec![], vec![]],
        vec![],
        vec![0; 5],
    );
    let arena = Bump::new();
    let mut explorer = BFSExplorer::new(&graph, &arena);
    let result = explorer.search(0);
    assert!(result.actions.is_none());
    assert_eq!(result.max_frontier_size, 4);
    assert_eq!(result.n_iter, 5);
}

#[test]
fn an_explorer_can_search_again() {
    let graph = two_ways();
    let arena = Bump::new();
    let mut explorer = MinCostExplorer::new(&graph, &arena);
    let first = explorer.search(0);
    let second = explorer.search(2);
    assert_eq!(graph.walk(0, &first.actions.unwrap()), (vec![0, 2, 3, 4], 3));
    assert_eq!(graph.walk(2, &second.actions.unwrap()), (vec![2, 3, 4], 2));
}

#[test]
fn explorers_remember_their_verbosity() {
    let graph = chain(2);
    let arena = Bump::new();
    let silent: Explorer<Table, DequeBackend> = Explorer::new(&graph, &arena);
    let low: Explorer<Table, DequeBackend> = Explorer::with_low_v(&graph, &arena);
    let chosen: Explorer<Table, DequeBackend> =
        Explorer::with_verbosity(&graph, &arena, Verbosity::Low);
    assert!(silent.verbosity == Verbosity::Silent);
    assert!(low.verbosity == Verbosity::Low);
    assert!(chosen.verbosity == Verbosity::Low);
    assert!(!silent.stalled);
}

#[test]
fn inner_results_hold_what_they_are_given() {
    let found: InnerResult<usize, usize> = InnerResult::found(4, vec![1, 0], 7);
    assert_eq!(found.state, Some(4));
    assert_eq!(found.actions, Some(vec![1, 0]));
    assert_eq!(found.max_frontier_size, 7);
    let not_found: InnerResult<usize, usize> = InnerResult::not_found(3);
    assert_eq!(not_found.state, None);
    assert_eq!(not_found.actions, None);
    assert_eq!(not_found.max_frontier_size, 3);
}

#[test]
fn search_results_take_over_the_inner_result() {
    let empty: SearchResult<usize, usize> = SearchResult::new();
    assert_eq!(empty.state, None);
    assert_eq!(empty.actions, None);
    assert_eq!(empty.n_iter, 0);
    assert_eq!(empty.max_frontier_size, 0);
    assert_eq!(empty.total_time.as_nanos(), 0);
    let start = Instant::now();
    let result = SearchResult::from_inner_result(start, 9, InnerResult::found(4, vec![1, 0], 7));
    assert_eq!(result.state, Some(4));
    assert_eq!(result.actions, Some(vec![1, 0]));
    assert_eq!(result.n_iter, 9);
    assert_eq!(result.max_frontier_size, 7);
    assert!(result.total_time <= start.elapsed());
    let none: SearchResult<usize, usize> =
        SearchResult::from_inner_result(start, 2, InnerResult::not_found(1));
    assert_eq!((none.state, none.actions, none.n_iter, none.max_frontier_size), (None, None, 2, 1));
}

#[test]
fn tree_search_takes_every_successor_in() {
    // 0 -> 1, 0 -> 2, both lead to 3, which leads to the goal 4
    let graph = Table::new(
        vec![vec![(1, 1), (2, 1)], vec![(3, 1)], vec![(3, 1)], vec![(4, 1)], vec![]],
        vec![4],
        vec![0; 5],
    );
    let arena = Bump::new();
    let mut explorer = BFSTreeExplorer::new(&graph, &arena);
    let result = explorer.search(0);
    assert_eq!(graph.walk(0, &result.actions.unwrap()), (vec![0, 1, 3, 4], 3));
    // 3 is reached twice and tested twice
    assert_eq!(*graph.tested.borrow(), vec![0, 1, 2, 3, 3, 4]);
    assert_eq!(result.n_iter, 6);
    assert_eq!(result.state, Some(4));
}

#[test]
fn tree_search_by_cost_finds_a_cheapest_plan() {
    let graph = two_ways();
    let arena = Bump::new();
    let mut explorer = MinTreeCostExplorer::new(&graph, &arena);
    let result = explorer.search(0);
    assert_eq!(graph.walk(0, &result.actions.unwrap()), (vec![0, 2, 3, 4], 3));
}

#[test]
fn tree_search_respects_the_bound() {
    let graph = chain(6);
    let arena = Bump::new();
    let mut explorer = DFSTreeExplorer::new(&graph, &arena);
    let result = explorer.search_with_max_depth(0, 3);
    assert!(result.actions.is_none());
    assert_eq!(*graph.expanded.borrow(), vec![0, 1, 2]);
    let found = explorer.search_with_max_depth(0, 5);
    assert_eq!(found.actions, Some(vec![0, 0, 0, 0, 0]));
}

#[test]
fn tree_search_deepens_until_it_finds() {
    // a loop 0 -> 0 that an unbounded depth-first tree search would follow
    // for ever, and a way out to the goal 1
    let graph = Table::new(vec![vec![(1, 1), (0, 1)], vec![]], vec![1], vec![0; 2]);
    let arena = Bump::new();
    let mut explorer = DFSTreeExplorer::new(&graph, &arena);
    let result = explorer.iterative_search(0, 5);
    assert_eq!(result.actions, Some(vec![0]));
    assert_eq!(result.state, Some(1));
    let none = explorer.iterative_search(0, 0);
    assert!(none.actions.is_none());
    assert_eq!(none.n_iter, 0);
}

#[test]
fn deepening_stops_when_an_attempt_stalls() {
    let graph = chain(4);
    let arena = Bump::new();
    arena.set_allocation_limit(Some(0));
    let mut explorer = DFSExplorer::new(&graph, &arena);
    let result = explorer.iterative_search(0, 10);
    assert!(result.actions.is_none());
    assert!(explorer.stalled);
    // the attempt under the bound 1 tested the start and could not expand it
    assert_eq!(result.n_iter, 1);
    assert_eq!(*graph.tested.borrow(), vec![0]);
}

#[test]
fn a_search_that_finds_has_not_stalled() {
    let graph = chain(4);
    let arena = Bump::new();
    let mut explorer = DFSExplorer::new(&graph, &arena);
    arena.set_allocation_limit(Some(0));
    assert!(explorer.search(0).actions.is_none());
    assert!(explorer.stalled);
    arena.set_allocation_limit(None);
    assert_eq!(explorer.search(0).actions, Some(vec![0, 0, 0]));
    assert!(!explorer.stalled);
}

#[test]
fn tree_search_without_room_stalls() {
    let graph = chain(4);
    let arena = Bump::new();
    arena.set_allocation_limit(Some(0));
    let mut explorer = BFSTreeExplorer::new(&graph, &arena);
    let result = explorer.search(0);
    assert!(result.actions.is_none());
    assert_eq!(result.n_iter, 1);
    assert!(explorer.stalled);
    let deep = explorer.iterative_search(0, 5);
    assert!(deep.actions.is_none());
    assert_eq!(deep.n_iter, 1);
    assert!(explorer.stalled);
    arena.set_allocation_limit(None);
    assert_eq!(explorer.search(0).actions, Some(vec![0, 0, 0]));
    assert!(!explorer.stalled);
}

#[test]
fn tree_search_reports_its_largest_frontier() {
    // 0 has three successors, each of which has one, all of them being 4
    let graph = Table::new(
        vec![vec![(1, 1), (2, 1), (3, 1)], vec![(4, 1)], vec![(4, 1)], vec![(4, 1)], vec![]],
        vec![],
        vec![0; 5],
    );
    let arena = Bump::new();
    let mut explorer = BFSTreeExplorer::new(&graph, &arena);
    let result = explorer.search(0);
    assert!(result.actions.is_none());
    // 0, then 1, 2 and 3, then 4 three times
    assert_eq!(result.n_iter, 7);
    assert_eq!(result.max_frontier_size, 3);
    assert!(!explorer.stalled);
}

struct Counting {}

impl Problem for Counting {
    type State = u8;
}

#[test]
fn the_default_state_is_where_attempts_start() {
    assert_eq!((Counting {}).init_state(), 0);
}

#[test]
fn a_count_that_can_go_no_further_stalls_the_attempt() {
    let graph = chain(3);
    let arena = Bump::new();
    let mut explorer = BFSExplorer::new(&graph, &arena);
    let mut n_iter = usize::MAX;
    let result = explorer.inner_search(&mut n_iter, 0, None);
    assert!(result.actions.is_none());
    assert!(explorer.stalled);
    assert_eq!(n_iter, usize::MAX);
    assert!(graph.tested.borrow().is_empty());
    let mut tree = BFSTreeExplorer::new(&graph, &arena);
    let mut count = usize::MAX;
    let nothing = tree.inner_search(&mut count, 0, None);
    assert!(nothing.actions.is_none());
    assert!(tree.stalled);
    assert_eq!(count, usize::MAX);
}

#[test]
fn a_count_that_runs_out_on_an_empty_frontier_does_not_stall() {
    // the start has no successor: one round empties the frontier
    let graph = Table::new(vec![vec![]], vec![], vec![0]);
    let arena = Bump::new();
    let mut explorer = BFSExplorer::new(&graph, &arena);
    let mut n_iter = usize::MAX - 1;
    let result = explorer.inner_search(&mut n_iter, 0, None);
    assert!(result.actions.is_none());
    assert_eq!(n_iter, usize::MAX);
    assert!(!explorer.stalled);
}

#[test]
fn breadth_first_finds_a_shallowest_plan_where_steps_cost_nothing() {
    // 0 -> 1 -> 2 -> 3 -> 5 and 0 -> 4 -> 5, every step at the cost 0
    let graph = Table::new(
        vec![vec![(1, 0), (4, 0)], vec![(2, 0)], vec![(3, 0)], vec![(5, 0)], vec![(5, 0)], vec![]],
        vec![5],
        vec![0; 6],
    );
    let arena = Bump::new();
    let mut explorer = BFSExplorer::new(&graph, &arena);
    let result = explorer.search(0);
    assert_eq!(graph.walk(0, &result.actions.unwrap()), (vec![0, 4, 5], 0));
}

#[test]
fn tree_search_with_an_admissible_estimate_finds_a_cheapest_plan() {
    let graph = misleading();
    let arena = Bump::new();
    let mut explorer = AStarTreeExplorer::new(&graph, &arena);
    let result = explorer.search(0);
    assert_eq!(graph.walk(0, &result.actions.unwrap()), (vec![0, 1, 3, 4], 7));
}

#[test]
fn deepening_tree_search_finds_a_shortest_plan() {
    let graph = two_ways();
    let arena = Bump::new();
    let mut explorer = DFSTreeExplorer::new(&graph, &arena);
    let result = explorer.iterative_search(0, 9);
    // two steps over 1, though three steps over 2 and 3 are cheaper
    assert_eq!(graph.walk(0, &result.actions.unwrap()), (vec![0, 1, 4], 20));
    let none = explorer.iterative_search(0, 1);
    assert!(none.actions.is_none());
    assert!(!explorer.stalled);
}

#[test]
fn depth_first_search_finds_what_can_be_reached() {
    // a goal that only the last action of the start leads to
    let graph = Table::new(
        vec![vec![(1, 1), (2, 1), (3, 1)], vec![(0, 1)], vec![(1, 1)], vec![]],
        vec![3],
        vec![0; 4],
    );
    let arena = Bump::new();
    let mut explorer = DFSExplorer::new(&graph, &arena);
    let found = explorer.search(0);
    assert_eq!(found.state, Some(3));
    let mut greedy = BestFirstGreedyExplorer::new(&graph, &arena);
    assert_eq!(greedy.search(0).state, Some(3));
}
