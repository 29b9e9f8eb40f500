use agent::backend::{
    AStarBackend, AStarPolicy, BestFirstBackend, BestFirstPolicy, DequeBackend, FrontierBackend,
    MinCostBackend, MinCostPolicy, NodeCost, StackBackend,
};
use agent::frontier::Frontier;
use agent::node::Node;
use agent::problem::{CostructSolution, Problem, Utility};
use bumpalo::Bump;

/// States are numbers; from `n` one can go to `n + 1` at the cost 1 or to
/// `2 * n` at the cost 3; the estimate of `n` is `100 - n`, or 0 beyond 100.
struct Numbers {}

#[derive(Clone, Copy, Debug, PartialEq, Eq)]
enum Move {
    Next,
    Double,
}

impl Problem for Numbers {
    type State = u32;
}

impl CostructSolution for Numbers {
    type Action = Move;

    fn executable_actions(&self, _state: &u32) -> Vec<Move> {
        vec![Move::Next, Move::Double]
    }

    fn result(&self, state: &u32, action: &Move) -> (u32, u64) {
        match action {
            Move::Next => (state + 1, 1),
            Move::Double => (state * 2, 3),
        }
    }
}

impl Utility for Numbers {
    fn heuristic(&self, state: &u32) -> u64 {
        100u64.saturating_sub(*state as u64)
    }
}

#[test]
fn root_has_no_cost_but_its_own() {
    let problem = Numbers {};
    let root = Node::new(None, &problem, 7, None, 0);
    assert_eq!(root.get_g_cost(), 0);
    assert_eq!(root.get_h_cost(), 93);
    assert_eq!(root.get_f_cost(), 93);
    assert_eq!(root.get_depth(), 0);
    assert_eq!(*root.get_state(), 7);
    assert!(!root.is_dead());
    assert_eq!(root.get_plan(), vec![]);

    let paid = Node::new(None, &problem, 7, None, 5);
    assert_eq!(paid.get_g_cost(), 5);
    assert_eq!(paid.get_f_cost(), 98);
}

#[test]
fn child_adds_to_its_parent() {
    let problem = Numbers {};
    let root = Node::new(None, &problem, 7, None, 0);
    let child = Node::new(Some(&root), &problem, 14, Some(Move::Double), 3);
    let grandchild = Node::new(Some(&child), &problem, 15, Some(Move::Next), 1);
    assert_eq!(child.get_g_cost(), 3);
    assert_eq!(child.get_h_cost(), 86);
    assert_eq!(child.get_f_cost(), 89);
    assert_eq!(child.get_depth(), 1);
    assert_eq!(grandchild.get_g_cost(), 4);
    assert_eq!(grandchild.get_h_cost(), 85);
    assert_eq!(grandchild.get_f_cost(), 89);
    assert_eq!(grandchild.get_depth(), 2);
    assert_eq!(*grandchild.get_state(), 15);
    assert_eq!(child.get_plan(), vec![Move::Double]);
    assert_eq!(grandchild.get_plan(), vec![Move::Double, Move::Next]);
}

#[test]
fn path_cost_outgrows_a_single_cost() {
    let problem = Numbers {};
    let root = Node::new(None, &problem, 1, None, u64::MAX);
    let child = Node::new(Some(&root), &problem, 2, Some(Move::Next), u64::MAX);
    assert_eq!(child.get_g_cost(), 2 * (u64::MAX as u128));
    assert_eq!(child.get_f_cost(), 2 * (u64::MAX as u128) + 98);
}

#[test]
fn tombstone_is_set_once_and_stays() {
    let problem = Numbers {};
    let mut node = Node::new(None, &problem, 7, None, 0);
    assert!(!node.is_dead());
    node.mark_dead();
    assert!(node.is_dead());
    node.mark_dead();
    assert!(node.is_dead());
    assert_eq!(node.get_g_cost(), 0);
    assert_eq!(*node.get_state(), 7);
}

#[test]
fn node_in_arena_is_the_node_that_was_made() {
    let problem = Numbers {};
    let arena = Bump::new();
    let root = Node::in_arena(None, &problem, 7, None, 0, &arena).unwrap();
    let child = Node::in_arena(Some(root), &problem, 8, Some(Move::Next), 1, &arena).unwrap();
    assert_eq!(*root.get_state(), 7);
    assert_eq!(root.get_depth(), 0);
    assert_eq!(*child.get_state(), 8);
    assert_eq!(child.get_g_cost(), 1);
    assert_eq!(child.get_h_cost(), 92);
    assert_eq!(child.get_depth(), 1);
    assert_eq!(child.get_plan(), vec![Move::Next]);
}

#[test]
fn arena_without_room_gives_no_node() {
    let problem = Numbers {};
    let arena = Bump::new();
    arena.set_allocation_limit(Some(0));
    assert!(Node::in_arena(None, &problem, 7, None, 0, &arena).is_none());
}

#[test]
fn policies_weigh_by_cost_estimate_or_both() {
    let problem = Numbers {};
    let root = Node::new(None, &problem, 7, None, 0);
    let child = Node::new(Some(&root), &problem, 14, Some(Move::Double), 3);
    assert_eq!(MinCostPolicy::cost(&child), 3);
    assert_eq!(BestFirstPolicy::cost(&child), 86);
    assert_eq!(AStarPolicy::cost(&child), 89);
}

/// Three nodes: state 10 at cost 5, state 90 at cost 9, state 50 at cost 1.
fn three<'a>(problem: &Numbers) -> [Node<'a, Numbers>; 3] {
    [
        Node::new(None, problem, 10, None, 5),
        Node::new(None, problem, 90, None, 9),
        Node::new(None, problem, 50, None, 1),
    ]
}

fn drain<B: FrontierBackend>(backend: &mut B) -> Vec<usize> {
    let mut order = Vec::new();
    while let Some(handle) = backend.dequeue() {
        order.push(handle);
    }
    order
}

#[test]
fn deque_lets_the_first_go_first() {
    let problem = Numbers {};
    let nodes = three(&problem);
    let mut backend = DequeBackend::empty();
    assert_eq!(backend.size(), 0);
    for (handle, node) in nodes.iter().enumerate() {
        backend.enqueue(handle, node);
    }
    assert_eq!(backend.size(), 3);
    assert_eq!(drain(&mut backend), vec![0, 1, 2]);
    assert_eq!(backend.size(), 0);
    assert_eq!(backend.dequeue(), None);
}

#[test]
fn stack_lets_the_last_go_first() {
    let problem = Numbers {};
    let nodes = three(&problem);
    let mut backend = StackBackend::empty();
    for (handle, node) in nodes.iter().enumerate() {
        backend.enqueue(handle, node);
    }
    assert_eq!(backend.size(), 3);
    assert_eq!(drain(&mut backend), vec![2, 1, 0]);
    assert_eq!(backend.dequeue(), None);
}

#[test]
fn min_cost_lets_the_cheapest_go_first() {
    let problem = Numbers {};
    let nodes = three(&problem);
    let mut backend = MinCostBackend::empty();
    assert_eq!(backend.size(), 0);
    assert_eq!(backend.dequeue(), None);
    for (handle, node) in nodes.iter().enumerate() {
        backend.enqueue(handle, node);
    }
    assert_eq!(backend.size(), 3);
    assert_eq!(backend.dequeue(), Some(2));
    assert_eq!(backend.size(), 2);
    assert_eq!(drain(&mut backend), vec![0, 1]);
    assert_eq!(backend.size(), 0);
}

#[test]
fn best_first_lets_the_closest_go_first() {
    let problem = Numbers {};
    let nodes = three(&problem);
    let mut backend = BestFirstBackend::empty();
    for (handle, node) in nodes.iter().enumerate() {
        backend.enqueue(handle, node);
    }
    // estimates: 90, 10, 50
    assert_eq!(drain(&mut backend), vec![1, 2, 0]);
}

#[test]
fn a_star_lets_the_smallest_sum_go_first() {
    let problem = Numbers {};
    let nodes = three(&problem);
    let mut backend = AStarBackend::empty();
    for (handle, node) in nodes.iter().enumerate() {
        backend.enqueue(handle, node);
    }
    // sums: 95, 19, 51
    assert_eq!(drain(&mut backend), vec![1, 2, 0]);
}

#[test]
fn reset_empties_every_backend() {
    let problem = Numbers {};
    let nodes = three(&problem);
    let mut deque = DequeBackend::empty();
    let mut stack = StackBackend::empty();
    let mut queue = MinCostBackend::empty();
    for (handle, node) in nodes.iter().enumerate() {
        deque.enqueue(handle, node);
        stack.enqueue(handle, node);
        queue.enqueue(handle, node);
    }
    deque.reset();
    stack.reset();
    queue.reset();
    assert_eq!((deque.size(), stack.size(), queue.size()), (0, 0, 0));
    assert_eq!((deque.dequeue(), stack.dequeue(), queue.dequeue()), (None, None, None));
    queue.enqueue(0, &nodes[1]);
    assert_eq!(queue.size(), 1);
    assert_eq!(queue.dequeue(), Some(0));
}

#[test]
fn frontier_takes_in_a_new_state() {
    let problem = Numbers {};
    let mut frontier: Frontier<Numbers, DequeBackend> = Frontier::new();
    assert_eq!(frontier.size(), 0);
    assert!(frontier.enqueue_or_replace(Node::new(None, &problem, 10, None, 5)));
    assert!(frontier.enqueue_or_replace(Node::new(None, &problem, 11, None, 2)));
    assert_eq!(frontier.size(), 2);
    let first = frontier.dequeue().unwrap();
    assert_eq!((*first.get_state(), first.get_g_cost()), (10, 5));
    assert_eq!(frontier.size(), 1);
    let second = frontier.dequeue().unwrap();
    assert_eq!((*second.get_state(), second.get_g_cost()), (11, 2));
    assert_eq!(frontier.size(), 0);
    assert!(frontier.dequeue().is_none());
}

#[test]
fn frontier_rejects_what_is_no_cheaper() {
    let problem = Numbers {};
    let mut frontier: Frontier<Numbers, DequeBackend> = Frontier::new();
    assert!(frontier.enqueue_or_replace(Node::new(None, &problem, 10, None, 5)));
    assert!(!frontier.enqueue_or_replace(Node::new(None, &problem, 10, None, 5)));
    assert!(!frontier.enqueue_or_replace(Node::new(None, &problem, 10, None, 6)));
    assert_eq!(frontier.size(), 1);
    let only = frontier.dequeue().unwrap();
    assert_eq!((*only.get_state(), only.get_g_cost()), (10, 5));
    assert!(frontier.dequeue().is_none());
}

#[test]
fn frontier_replaces_by_what_is_cheaper() {
    let problem = Numbers {};
    let mut frontier: Frontier<Numbers, DequeBackend> = Frontier::new();
    assert!(frontier.enqueue_or_replace(Node::new(None, &problem, 10, None, 5)));
    assert!(frontier.enqueue_or_replace(Node::new(None, &problem, 11, None, 2)));
    assert!(frontier.enqueue_or_replace(Node::new(None, &problem, 10, None, 4)));
    // the node that was superseded still waits in the backend, but does not count
    assert_eq!(frontier.size(), 2);
    assert_eq!(frontier.collection.size(), 3);
    let first = frontier.dequeue().unwrap();
    assert_eq!((*first.get_state(), first.get_g_cost()), (11, 2));
    let second = frontier.dequeue().unwrap();
    assert_eq!((*second.get_state(), second.get_g_cost()), (10, 4));
    assert!(!second.is_dead());
    assert!(frontier.dequeue().is_none());
    assert_eq!(frontier.size(), 0);
}

#[test]
fn frontier_never_returns_a_superseded_node() {
    let problem = Numbers {};
    let mut frontier: Frontier<Numbers, MinCostBackend> = Frontier::new();
    for cost in [9, 8, 7, 6, 5] {
        assert!(frontier.enqueue_or_replace(Node::new(None, &problem, 10, None, cost)));
    }
    assert!(frontier.enqueue_or_replace(Node::new(None, &problem, 20, None, 7)));
    assert_eq!(frontier.size(), 2);
    let first = frontier.dequeue().unwrap();
    assert_eq!((*first.get_state(), first.get_g_cost()), (10, 5));
    let second = frontier.dequeue().unwrap();
    assert_eq!((*second.get_state(), second.get_g_cost()), (20, 7));
    assert!(frontier.dequeue().is_none());
    assert_eq!(frontier.collection.size(), 0);
}

#[test]
fn frontier_takes_a_state_in_again_once_it_has_left() {
    let problem = Numbers {};
    let mut frontier: Frontier<Numbers, StackBackend> = Frontier::new();
    assert!(frontier.enqueue_or_replace(Node::new(None, &problem, 10, None, 5)));
    assert!(frontier.dequeue().is_some());
    assert!(frontier.enqueue_or_replace(Node::new(None, &problem, 10, None, 50)));
    assert_eq!(frontier.size(), 1);
    assert_eq!(frontier.dequeue().unwrap().get_g_cost(), 50);
}

#[test]
fn frontier_reset_forgets_everything() {
    let problem = Numbers {};
    let mut frontier: Frontier<Numbers, AStarBackend> = Frontier::new();
    assert!(frontier.enqueue_or_replace(Node::new(None, &problem, 10, None, 5)));
    assert!(frontier.enqueue_or_replace(Node::new(None, &problem, 11, None, 5)));
    frontier.reset();
    assert_eq!(frontier.size(), 0);
    assert!(frontier.dequeue().is_none());
    assert!(frontier.enqueue_or_replace(Node::new(None, &problem, 10, None, 5)));
    assert_eq!(frontier.size(), 1);
}
