//! The record of one point that a search has reached.
use vstd::prelude::*;
use bumpalo::Bump;
use crate::problem::{clones_exactly, estimates, plan_reaches, step, Utility};

verus! {

#[verifier::external_type_specification]
#[verifier::external_body]
pub struct ExBump<const MIN_ALIGN: usize>(Bump<MIN_ALIGN>);

/// A path from the start of a search to `state`: the state, the node it was
/// reached from and the action that was taken there, the cost of the whole
/// path, the estimate of what remains, and the number of actions taken.
///
/// A node is never changed once it is made, but for its tombstone: a frontier
/// marks a node dead when it has found a cheaper path to the same state.
pub struct Node<'a, P: Utility> {
    pub state: P::State,
    pub parent: Option<&'a Node<'a, P>>,
    pub action: Option<P::Action>,
    pub total_cost: u128,
    pub heuristic: u64,
    pub depth: usize,
    pub dead: bool,
}

/// The largest cost that a path of `depth` actions below a root can have:
/// each step, and the root itself, costs at most `u64::MAX`.
pub open spec fn cost_limit(depth: usize) -> int {
    (depth + 1) * u64::MAX
}

/// Whatever the depth, a path cost and an estimate added to it fit in `u128`.
pub proof fn lemma_cost_limit(depth: usize)
    ensures
        cost_limit(depth) + u64::MAX <= u128::MAX,
        depth < usize::MAX ==> cost_limit(depth) + u64::MAX == cost_limit((depth + 1) as usize),
{
    assert((depth + 1) * u64::MAX + u64::MAX == (depth + 2) * u64::MAX) by (nonlinear_arith);
    assert((depth + 2) * u64::MAX <= 0x1_0000_0000_0000_0001 * 0xffff_ffff_ffff_ffff)
        by (nonlinear_arith)
        requires
            depth <= 0xffff_ffff_ffff_ffff,
    ;
}

impl<'a, P: Utility> Node<'a, P> {
    /// A node and all the nodes behind it are well formed: a node has a
    /// parent and an action together or neither, a root has depth 0 and a
    /// child is one deeper than its parent, no path costs less than the path
    /// it extends, and every cost is within `cost_limit`.
    pub open spec fn wf(self) -> bool
        decreases self,
    {
        &&& self.total_cost <= cost_limit(self.depth)
        &&& match self.parent {
            Some(parent) => {
                &&& self.action is Some
                &&& self.depth == parent.depth + 1
                &&& parent.total_cost <= self.total_cost
                &&& self.total_cost - parent.total_cost <= u64::MAX
                &&& parent.wf()
            },
            None => self.action is None && self.depth == 0,
        }
    }

    /// This node with its tombstone set.
    pub open spec fn tombstoned(self) -> Self {
        Node {
            state: self.state,
            parent: self.parent,
            action: self.action,
            total_cost: self.total_cost,
            heuristic: self.heuristic,
            depth: self.depth,
            dead: true,
        }
    }

    /// The actions on the path to this node, the first one first.
    pub open spec fn plan(self) -> Seq<P::Action>
        decreases self,
    {
        match (self.parent, self.action) {
            (Some(parent), Some(action)) => parent.plan().push(action),
            _ => Seq::empty(),
        }
    }

    /// The state of the root behind this node.
    pub open spec fn origin(self) -> P::State
        decreases self,
    {
        match self.parent {
            Some(parent) => parent.origin(),
            None => self.state,
        }
    }

    /// The cost of the root behind this node.
    pub open spec fn origin_cost(self) -> u128
        decreases self,
    {
        match self.parent {
            Some(parent) => parent.origin_cost(),
            None => self.total_cost,
        }
    }

    /// Every link behind this node is a step of `problem`: the action is
    /// offered in the parent's state and leads to the node's state, and what
    /// it costs is the difference of the two path costs.
    pub open spec fn follows(self, problem: &P) -> bool
        decreases self,
    {
        match (self.parent, self.action) {
            (Some(parent), Some(action)) => {
                &&& parent.follows(problem)
                &&& parent.total_cost <= self.total_cost
                &&& self.total_cost - parent.total_cost <= u64::MAX
                &&& step(
                    problem,
                    parent.state,
                    action,
                    self.state,
                    (self.total_cost - parent.total_cost) as u64,
                )
            },
            _ => true,
        }
    }

    /// Makes the node for `state`, reached from `parent` by `action` at the
    /// cost of `cost` for that one step; a root has neither parent nor
    /// action, and `cost` is then the cost it starts with. The estimate is
    /// asked of `problem` once, here.
    pub fn new(
        parent: Option<&'a Node<'a, P>>,
        problem: &P,
        state: P::State,
        action: Option<P::Action>,
        cost: u64,
    ) -> (node: Self)
        requires
            parent is Some <==> action is Some,
            parent matches Some(p) ==> p.wf() && p.depth < usize::MAX,
        ensures
            node.state == state,
            node.parent == parent,
            node.action == action,
            node.total_cost == cost + (match parent {
                Some(p) => p.total_cost,
                None => 0,
            }),
            node.depth == (match parent {
                Some(p) => p.depth + 1,
                None => 0,
            }),
            estimates(problem, state, node.heuristic),
            !node.dead,
            node.wf(),
    {
        let mut total_cost: u128 = cost as u128;
        let mut depth: usize = 0;
        if let Some(parent_node) = parent {
            proof {
                lemma_cost_limit(parent_node.depth);
            }
            total_cost = total_cost + parent_node.total_cost;
            depth = parent_node.depth + 1;
        }
        let h = problem.heuristic(&state);
        Self { state, parent, action, total_cost, heuristic: h, depth, dead: false }
    }

    /// The accumulated cost of the path to this node.
    pub fn get_g_cost(&self) -> (g: u128)
        ensures
            g == self.total_cost,
    {
        self.total_cost
    }

    /// The estimate of the cost that remains from this node's state.
    pub fn get_h_cost(&self) -> (h: u64)
        ensures
            h == self.heuristic,
    {
        self.heuristic
    }

    /// The path cost and the estimate together; computed when asked for.
    pub fn get_f_cost(&self) -> (f: u128)
        requires
            self.wf(),
        ensures
            f == self.total_cost + self.heuristic,
    {
        proof {
            lemma_cost_limit(self.depth);
        }
        self.total_cost + self.heuristic as u128
    }

    pub fn get_state(&self) -> (state: &P::State)
        ensures
            *state == self.state,
    {
        &self.state
    }

    /// The number of actions on the path to this node.
    pub fn get_depth(&self) -> (depth: usize)
        ensures
            depth == self.depth,
    {
        self.depth
    }

    /// Sets the tombstone; nothing else changes.
    pub fn mark_dead(&mut self)
        ensures
            *final(self) == old(self).tombstoned(),
    {
        self.dead = true;
    }

    pub fn is_dead(&self) -> (dead: bool)
        ensures
            dead == self.dead,
    {
        self.dead
    }

    /// The actions that lead from the root to this node, the first one
    /// first; none for a root. A tombstoned node has no plan to give: its
    /// path was given up for a cheaper one.
    pub fn get_plan(&self) -> (plan: Vec<P::Action>) where P::Action: Clone
        requires
            self.wf(),
            !self.dead,
            clones_exactly::<P::Action>(),
        ensures
            plan@ == self.plan(),
    {
        let mut backwards: Vec<P::Action> = Vec::new();
        let mut current: &Node<'a, P> = self;
        while current.parent.is_some()
            invariant
                current.wf(),
                clones_exactly::<P::Action>(),
                self.plan() == current.plan() + backwards@.reverse(),
            decreases current.depth,
        {
            let parent = current.parent.unwrap();
            if let Some(action) = &current.action {
                let copy = action.clone();
                assert(cloned::<P::Action>(*action, copy));
                backwards.push(copy);
                assert(backwards@.reverse() == seq![copy] + backwards@.drop_last().reverse()) by {
                    lemma_reverse_push(backwards@.drop_last(), copy);
                    assert(backwards@ == backwards@.drop_last().push(copy));
                }
                assert(current.plan() == parent.plan().push(copy));
                assert(parent.plan().push(copy) + backwards@.drop_last().reverse() == parent.plan() + (
                seq![copy] + backwards@.drop_last().reverse()));
            }
            current = parent;
        }
        let mut plan: Vec<P::Action> = Vec::new();
        let ghost all = backwards@;
        while backwards.len() > 0
            invariant
                backwards@ == all.take(backwards@.len() as int),
                backwards@.len() <= all.len(),
                plan@ == all.skip(backwards@.len() as int).reverse(),
            decreases backwards.len(),
        {
            let ghost before = backwards@;
            let action = backwards.pop().unwrap();
            proof {
                let n = backwards@.len() as int;
                assert(backwards@ == all.take(n));
                assert(all.skip(n) == seq![action] + all.skip(n + 1));
                lemma_reverse_front(all.skip(n + 1), action);
            }
            plan.push(action);
        }
        proof {
            assert(all.skip(0) == all);
            assert(current.plan() == Seq::<P::Action>::empty());
            assert(self.plan() == all.reverse());
        }
        plan
    }
}

impl<'a, P: Utility> Node<'a, P> {
    /// Makes the node as `new` does and moves it into `arena`, where it
    /// lives as long as the arena does. `None` when the arena has no room
    /// left for it.
    pub fn in_arena(
        parent: Option<&'a Node<'a, P>>,
        problem: &P,
        state: P::State,
        action: Option<P::Action>,
        cost: u64,
        arena: &'a Bump,
    ) -> (placed: Option<&'a Self>)
        requires
            parent is Some <==> action is Some,
            parent matches Some(p) ==> p.wf() && p.depth < usize::MAX,
        ensures
            placed matches Some(node) ==> {
                &&& node.state == state
                &&& node.parent == parent
                &&& node.action == action
                &&& node.total_cost == cost + (match parent {
                    Some(p) => p.total_cost,
                    None => 0,
                })
                &&& node.depth == (match parent {
                    Some(p) => p.depth + 1,
                    None => 0,
                })
                &&& estimates(problem, state, node.heuristic)
                &&& !node.dead
                &&& node.wf()
            },
    {
        place(arena, Self::new(parent, problem, state, action, cost))
    }

    /// Plan validity. Behind a node whose links are steps of `problem`
    /// lies a run of the problem: taking the actions of its plan in turn,
    /// from the state of its root, ends in the node's state, and the costs
    /// of the steps add up to what the node's path cost has grown by since
    /// the root.
    pub proof fn lemma_plan_reaches(self, problem: &P)
        requires
            self.wf(),
            self.follows(problem),
        ensures
            plan_reaches(
                problem,
                self.origin(),
                self.plan(),
                self.state,
                self.total_cost - self.origin_cost(),
            ),
            self.plan().len() == self.depth,
            self.origin_cost() <= self.total_cost,
        decreases self,
    {
        match (self.parent, self.action) {
            (Some(parent), Some(action)) => {
                parent.lemma_plan_reaches(problem);
                let cost = (self.total_cost - parent.total_cost) as u64;
                assert(self.plan().drop_last() == parent.plan());
                assert(self.plan().last() == action);
                assert(step(problem, parent.state, self.plan().last(), self.state, cost));
            },
            _ => {},
        }
    }
}

/// Moves `value` into `arena` with `bumpalo::Bump::try_alloc` and hands
/// back a shared reference to it, or `None` where the arena could not make
/// room. The contract claims that the value found behind the reference is
/// the one that was handed in; whether room is found is left open.
#[verifier::external_body]
pub(crate) fn place<'a, T>(arena: &'a Bump, value: T) -> (placed: Option<&'a T>)
    ensures
        placed matches Some(kept) ==> *kept == value,
{
    match arena.try_alloc(value) {
        Ok(kept) => Some(kept),
        Err(_) => None,
    }
}

/// Reversing after a push puts the pushed item in front.
pub proof fn lemma_reverse_push<T>(items: Seq<T>, last: T)
    ensures
        items.push(last).reverse() == seq![last] + items.reverse(),
{
    assert(items.push(last).reverse() =~= seq![last] + items.reverse());
}

/// Reversing with an item in front puts that item last.
pub proof fn lemma_reverse_front<T>(items: Seq<T>, first: T)
    ensures
        (seq![first] + items).reverse() == items.reverse().push(first),
{
    assert((seq![first] + items).reverse() =~= items.reverse().push(first));
}

} // verus!
