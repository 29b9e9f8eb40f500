use agent::explorer::{
    AStarExplorer, BFSExplorer, BestFirstGreedyExplorer, DFSExplorer, MinCostExplorer,
    SearchResult,
};
use agent::problem::{CostructSolution, Problem, SuitableState, Utility};
use bumpalo::Bump;

#[derive(Clone, Copy, Debug, PartialEq, Eq, Hash)]
struct Action {
    goto: &'static str,
    cost: u64,
}

impl Action {
    fn new(name: &'static str, cost: u64) -> Self {
        Self { goto: name, cost }
    }
}

#[derive(Hash, PartialEq, Eq, Clone, Copy, Debug)]
struct State {
    name: &'static str,
}

impl State {
    fn new(name: &'static str) -> Self {
        Self { name }
    }
}

struct Graph {}

impl Problem for Graph {
    type State = State;
}

impl CostructSolution for Graph {
    type Action = Action;

    fn executable_actions(&self, state: &State) -> Vec<Action> {
        let mut result = Vec::with_capacity(3);
        match state.name {
            "A" => result.push(Action::new("B", 4)),
            "B" => {
                result.push(Action::new("C", 3));
                result.push(Action::new("G1", 9));
            }
            "C" => {
                result.push(Action::new("F", 2));
                result.push(Action::new("J", 5));
                result.push(Action::new("S", 1));
            }
            "D" => {
                result.push(Action::new("C", 3));
                result.push(Action::new("E", 3));
                result.push(Action::new("S", 8));
            }
            "E" => {
                result.push(Action::new("G2", 7));
            }
            "F" => {
                result.push(Action::new("D", 1));
                result.push(Action::new("G2", 4));
            }
            "G1" => {}
            "G2" => {}
            "J" => {
                result.push(Action::new("G1", 3));
            }
            "S" => {
                result.push(Action::new("A", 2));
                result.push(Action::new("B", 7));
                result.push(Action::new("D", 5));
            }
            _ => panic!(),
        };
        result
    }

    fn result(&self, _state: &State, action: &Action) -> (State, u64) {
        (State { name: action.goto }, action.cost)
    }
}

impl Utility for Graph {
    fn heuristic(&self, state: &State) -> u64 {
        match state.name {
            "A" => 9,
            "B" => 3,
            "C" => 2,
            "D" => 4,
            "E" => 5,
            "F" => 3,
            "G1" => 0,
            "G2" => 0,
            "J" => 1,
            "S" => 7,
            _ => panic!(),
        }
    }
}

impl SuitableState for Graph {
    fn is_suitable(&self, state: &State) -> bool {
        state.name == "G1" || state.name == "G2"
    }
}

/// Takes the actions of the plan in turn from `S`: the names of the nodes
/// passed, and the weight of the path. Panics where an action cannot be
/// taken.
fn walk(result: &SearchResult<State, Action>) -> (Vec<&'static str>, u64) {
    let graph = Graph {};
    let mut state = State::new("S");
    let mut names = vec![state.name];
    let mut total = 0;
    for action in result.actions.as_ref().unwrap() {
        assert!(graph.executable_actions(&state).contains(action));
        let (next, cost) = graph.result(&state, action);
        state = next;
        total += cost;
        names.push(state.name);
    }
    assert_eq!(Some(state), result.state);
    assert!(graph.is_suitable(&state));
    (names, total)
}

fn show(result: &SearchResult<State, Action>) -> String {
    format!(
        "state: {:?}\nactions: {:?}\ntime: {:?}\niterations: {}\nmax frontier size: {}",
        result.state, result.actions, result.total_time, result.n_iter, result.max_frontier_size
    )
}

#[test]
fn test_a31_dfs() {
    let graph = Graph {};
    let arena = Bump::new();
    let init_state = State::new("S");
    let mut explorer = DFSExplorer::with_low_v(&graph, &arena);
    let result = explorer.search(init_state);
    println!("{}", show(&result));
    assert_eq!(walk(&result), (vec!["S", "D", "E", "G2"], 15));
}

#[test]
fn test_a31_bfs() {
    let graph = Graph {};
    let arena = Bump::new();
    let init_state = State::new("S");
    let mut explorer = BFSExplorer::with_low_v(&graph, &arena);
    let result = explorer.search(init_state);
    println!("{}", show(&result));
    // The node for B that was reached over A is cheaper than the one reached
    // from S directly, and takes its place in the queue.
    assert_eq!(walk(&result), (vec!["S", "A", "B", "G1"], 15));
}

#[test]
fn test_a31_iter() {
    let graph = Graph {};
    let arena = Bump::new();
    let init_state = State::new("S");
    let mut explorer = DFSExplorer::with_low_v(&graph, &arena);
    let result = explorer.iterative_search(init_state, 40);
    println!("{}", show(&result));
    assert_eq!(walk(&result), (vec!["S", "B", "G1"], 16));
}

#[test]
fn test_a31_min_cost() {
    let graph = Graph {};
    let arena = Bump::new();
    let init_state = State::new("S");
    let mut explorer = MinCostExplorer::with_low_v(&graph, &arena);
    let result = explorer.search(init_state);
    println!("{}", show(&result));
    assert_eq!(walk(&result), (vec!["S", "D", "C", "F", "G2"], 14));
}

#[test]
fn test_a31_a_star() {
    let graph = Graph {};
    let arena = Bump::new();
    let init_state = State::new("S");
    let mut explorer = AStarExplorer::with_low_v(&graph, &arena);
    let result = explorer.search(init_state);
    println!("{}", show(&result));
    assert_eq!(walk(&result), (vec!["S", "D", "C", "F", "G2"], 14));
}

#[test]
fn test_a31_best_first() {
    let graph = Graph {};
    let arena = Bump::new();
    let init_state = State::new("S");
    let mut explorer = BestFirstGreedyExplorer::with_low_v(&graph, &arena);
    let result = explorer.search(init_state);
    println!("{}", show(&result));
    let (_, total) = walk(&result);
    assert!(total >= 14);
}
