use agent::explorer::{
    AStarExplorer, BFSExplorer, BestFirstGreedyExplorer, DFSExplorer, MinCostExplorer,
    SearchResult,
};
use agent::problem::{CostructSolution, Problem, SuitableState, Utility};
use bumpalo::Bump;

#[derive(Clone, Copy, Debug, PartialEq, Eq, Hash)]
struct Action {
    goto: &'static str,
    cost: u64,
}

impl Action {
    fn new(name: &'static str, cost: u64) -> Self {
        Self { goto: name, cost }
    }
}

#[derive(Hash, PartialEq, Eq, Clone, Copy, Debug)]
struct State {
    name: &'static str,
}

impl State {
    fn new(name: &'static str) -> Self {
        Self { name }
    }
}

struct Graph {}

impl Problem for Graph {
    type State = State;
}

impl CostructSolution for Graph {
    type Action = Action;

    fn executable_actions(&self, state: &State) -> Vec<Action> {
        let mut result = Vec::with_capacity(3);
        match state.name {
            "A" => {
                result.push(Action::new("E", 1));
                result.push(Action::new("H", 8));
            }
            "B" => {
                result.push(Action::new("C", 2));
                result.push(Action::new("I", 3));
                result.push(Action::new("J", 5));
            }
            "C" => {
                result.push(Action::new("S", 1));
                result.push(Action::new("G2", 18));
            }
            "D" => {
                result.push(Action::new("C", 2));
            }
            "E" => {
                result.push(Action::new("D", 2));
                result.push(Action::new("H", 7));
            }
            "G1" => {
                result.push(Action::new("E", 2));
            }
            "G2" => {
                result.push(Action::new("B", 15));
            }
            "J" => {
                result.push(Action::new("G2", 12));
            }
            "S" => {
                result.push(Action::new("A", 3));
                result.push(Action::new("B", 3));
                result.push(Action::new("D", 3));
            }
            "H" => {
                result.push(Action::new("G1", 9));
            }
            "I" => {
                result.push(Action::new("H", 4));
                result.push(Action::new("A", 1));
            }
            x => panic!("{} not exists", x),
        };
        result
    }

    fn result(&self, _state: &State, action: &Action) -> (State, u64) {
        (State { name: action.goto }, action.cost)
    }
}

impl Utility for Graph {
    fn heuristic(&self, state: &State) -> u64 {
        match state.name {
            "A" => 16,
            "B" => 16,
            "C" => 14,
            "D" => 17,
            "E" => 15,
            "G1" => 0,
            "G2" => 0,
            "I" => 12,
            "H" => 8,
            "J" => 10,
            "S" => 20,
            x => panic!("{} not exists", x),
        }
    }
}

impl SuitableState for Graph {
    fn is_suitable(&self, state: &State) -> bool {
        state.name == "G1" || state.name == "G2"
    }
}

/// Takes the actions of the plan in turn from `S`: the names of the nodes
/// passed, and the weight of the path. Panics where an action cannot be
/// taken.
fn walk_2(result: &SearchResult<State, Action>) -> (Vec<&'static str>, u64) {
    let graph = Graph {};
    let mut state = State::new("S");
    let mut names = vec![state.name];
    let mut total = 0;
    for action in result.actions.as_ref().unwrap() {
        assert!(graph.executable_actions(&state).contains(action));
        let (next, cost) = graph.result(&state, action);
        state = next;
        total += cost;
        names.push(state.name);
    }
    assert_eq!(Some(state), result.state);
    assert!(graph.is_suitable(&state));
    (names, total)
}

fn show_2(result: &SearchResult<State, Action>) -> String {
    format!(
        "state: {:?}\nactions: {:?}\ntime: {:?}\niterations: {}\nmax frontier size: {}",
        result.state, result.actions, result.total_time, result.n_iter, result.max_frontier_size
    )
}

#[test]
fn test_a32_dfs() {
    let graph = Graph {};
    let arena = Bump::new();
    let init_state = State::new("S");
    let mut explorer = DFSExplorer::with_low_v(&graph, &arena);
    let result = explorer.search(init_state);
    println!("{}", show_2(&result));
    let (names, total) = walk_2(&result);
    println!("{:?} {}", names, total);
    assert!(total >= 19);
}

#[test]
fn test_a32_bfs() {
    let graph = Graph {};
    let arena = Bump::new();
    let init_state = State::new("S");
    let mut explorer = BFSExplorer::with_low_v(&graph, &arena);
    let result = explorer.search(init_state);
    println!("{}", show_2(&result));
    let (names, total) = walk_2(&result);
    println!("{:?} {}", names, total);
    assert!(total >= 19);
}

#[test]
fn test_a32_iter() {
    let graph = Graph {};
    let arena = Bump::new();
    let init_state = State::new("S");
    let mut explorer = DFSExplorer::with_low_v(&graph, &arena);
    let result = explorer.iterative_search(init_state, 40);
    println!("{}", show_2(&result));
    let (names, total) = walk_2(&result);
    println!("{:?} {}", names, total);
    assert_eq!(names.len(), 4);
    assert!(total >= 19);
}

#[test]
fn test_a32_min_cost() {
    let graph = Graph {};
    let arena = Bump::new();
    let init_state = State::new("S");
    let mut explorer = MinCostExplorer::with_low_v(&graph, &arena);
    let result = explorer.search(init_state);
    println!("{}", show_2(&result));
    assert_eq!(walk_2(&result), (vec!["S", "B", "I", "H", "G1"], 19));
}

#[test]
fn test_a32_a_star() {
    let graph = Graph {};
    let arena = Bump::new();
    let init_state = State::new("S");
    let mut explorer = AStarExplorer::with_low_v(&graph, &arena);
    let result = explorer.search(init_state);
    println!("{}", show_2(&result));
    assert_eq!(walk_2(&result), (vec!["S", "B", "I", "H", "G1"], 19));
}

#[test]
fn test_a32_best_first() {
    let graph = Graph {};
    let arena = Bump::new();
    let init_state = State::new("S");
    let mut explorer = BestFirstGreedyExplorer::with_low_v(&graph, &arena);
    let result = explorer.search(init_state);
    println!("{}", show_2(&result));
    let (names, total) = walk_2(&result);
    println!("{:?} {}", names, total);
    assert!(total >= 19);
}
