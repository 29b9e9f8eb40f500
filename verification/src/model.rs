//! What a frontier holds and what a search does with it, told as functions
//! on plain values. The contracts of the frontier and of the explorer say
//! that the code does what these functions say.
use vstd::prelude::*;
use crate::backend::{DequeBackend, FrontierBackend, StackBackend};
use crate::node::Node;
use crate::explorer::within;
use crate::problem::{StateExplorerProblem, Utility};

verus! {

/// What waits in a frontier: the slots by handle, each with the node that
/// waits there or `None` once it has left, and the index from each state to
/// the handle of the live node that waits for it.
pub struct Waiting<'a, P: Utility> {
    pub entries: Seq<Option<Node<'a, P>>>,
    pub index: Map<P::State, usize>,
}

impl<'a, P: Utility> Waiting<'a, P> {
    /// Nothing waits.
    pub open spec fn empty() -> Self {
        Waiting { entries: Seq::empty(), index: Map::empty() }
    }

    /// A node waits under `handle`, dead or alive.
    pub open spec fn waits(self, handle: int) -> bool {
        0 <= handle < self.entries.len() && self.entries[handle] is Some
    }

    /// A live node waits for the state of `item` at a cost no higher than
    /// that of `item`.
    pub open spec fn rejects(self, item: Node<'a, P>) -> bool {
        &&& self.index.contains_key(item.state)
        &&& self.entries[self.index[item.state] as int]->0.total_cost <= item.total_cost
    }

    /// The slots once the live node that waits for `state`, if there is
    /// one, is marked dead.
    pub open spec fn superseding(self, state: P::State) -> Seq<Option<Node<'a, P>>> {
        if self.index.contains_key(state) {
            let handle = self.index[state] as int;
            self.entries.update(handle, Some(self.entries[handle]->0.tombstoned()))
        } else {
            self.entries
        }
    }

    /// What waits once `item` was offered: nothing changes where a live
    /// node waits for its state at a cost no higher; otherwise `item` waits
    /// in a new slot and is the live node for its state, and the node that
    /// was is dead.
    pub open spec fn offer(self, item: Node<'a, P>) -> Self {
        if self.rejects(item) {
            self
        } else {
            Waiting {
                entries: self.superseding(item.state).push(Some(item)),
                index: self.index.insert(item.state, self.entries.len() as usize),
            }
        }
    }

    /// The key that a backend keeps the node under `handle` under.
    pub open spec fn key<Backend: FrontierBackend>(self, handle: usize) -> u128 {
        Backend::key_of(
            self.entries[handle as int]->0.total_cost,
            self.entries[handle as int]->0.heuristic,
        )
    }

    /// The backend's rule puts the node under `handle` before all that
    /// wait.
    pub open spec fn leads<Backend: FrontierBackend>(self, handle: usize) -> bool {
        &&& self.waits(handle as int)
        &&& forall|other: usize| #[trigger]
            self.waits(other as int) ==> Backend::precedes(
                handle,
                self.key::<Backend>(handle),
                other,
                self.key::<Backend>(other),
            )
    }

    /// The handle that the backend lets go next.
    pub open spec fn first<Backend: FrontierBackend>(self) -> usize {
        choose|handle: usize| self.leads::<Backend>(handle)
    }

    /// What waits once the node under `handle` has left.
    pub open spec fn without(self, handle: usize) -> Self {
        Waiting { entries: self.entries.update(handle as int, None), index: self.index }
    }

    /// The node that is withdrawn, and what waits then: the backend lets
    /// nodes go until a live one comes; the dead ones are thrown away, and
    /// the live one leaves the index.
    pub open spec fn withdraw<Backend: FrontierBackend>(self) -> (Option<Node<'a, P>>, Self)
        decreases filled(self.entries),
        via Self::withdraw_ends::<Backend>
    {
        if exists|handle: usize| self.leads::<Backend>(handle) {
            let handle = self.first::<Backend>();
            let node = self.entries[handle as int]->0;
            if node.dead {
                self.without(handle).withdraw::<Backend>()
            } else {
                (
                    Some(node),
                    Waiting {
                        entries: self.entries.update(handle as int, None),
                        index: self.index.remove(node.state),
                    },
                )
            }
        } else {
            (None, self)
        }
    }

    /// `taken` may be the node that is withdrawn, with `rest` waiting then:
    /// as `withdraw` has it, but that any handle which leads may be the one
    /// that the backend lets go.
    pub open spec fn may_withdraw<Backend: FrontierBackend>(
        self,
        taken: Option<Node<'a, P>>,
        rest: Self,
    ) -> bool
        decreases filled(self.entries), 1nat,
    {
        ||| (forall|handle: usize| !self.leads::<Backend>(handle)) && taken is None && rest == self
        ||| exists|handle: usize| #[trigger]
            self.leads::<Backend>(handle) && self.may_withdraw_at::<Backend>(handle, taken, rest)
    }

    /// `taken` may be the node that is withdrawn, with `rest` waiting then,
    /// where the backend lets the handle `handle` go first.
    pub open spec fn may_withdraw_at<Backend: FrontierBackend>(
        self,
        handle: usize,
        taken: Option<Node<'a, P>>,
        rest: Self,
    ) -> bool
        decreases filled(self.entries), 0nat,
        via Self::may_withdraw_ends::<Backend>
    {
        if self.waits(handle as int) {
            if self.entries[handle as int]->0.dead {
                self.without(handle).may_withdraw::<Backend>(taken, rest)
            } else {
                taken == Some(self.entries[handle as int]->0) && rest == (Waiting {
                    entries: self.entries.update(handle as int, None),
                    index: self.index.remove(self.entries[handle as int]->0.state),
                })
            }
        } else {
            false
        }
    }

    #[via_fn]
    proof fn may_withdraw_ends<Backend: FrontierBackend>(
        self,
        handle: usize,
        taken: Option<Node<'a, P>>,
        rest: Self,
    ) {
        if self.waits(handle as int) {
            lemma_filled_update(self.entries, handle as int);
        }
    }

    /// Where one handle leads, it is the first, and `withdraw` goes on
    /// from it.
    pub proof fn lemma_withdraw_step<Backend: FrontierBackend>(self, handle: usize)
        requires
            strict::<Backend>(),
            self.leads::<Backend>(handle),
        ensures
            self.first::<Backend>() == handle,
            self.withdraw::<Backend>() == if self.entries[handle as int]->0.dead {
                self.without(handle).withdraw::<Backend>()
            } else {
                (
                    Some(self.entries[handle as int]->0),
                    Waiting {
                        entries: self.entries.update(handle as int, None),
                        index: self.index.remove(self.entries[handle as int]->0.state),
                    },
                )
            },
    {
        let first = self.first::<Backend>();
        assert(self.leads::<Backend>(first));
        assert(self.waits(first as int) && self.waits(handle as int));
        assert(Backend::precedes(
            first,
            self.key::<Backend>(first),
            handle,
            self.key::<Backend>(handle),
        ));
        assert(Backend::precedes(
            handle,
            self.key::<Backend>(handle),
            first,
            self.key::<Backend>(first),
        ));
    }

    /// Where nothing waits, nothing is withdrawn.
    pub proof fn lemma_withdraw_none<Backend: FrontierBackend>(self)
        requires
            forall|handle: usize| !self.waits(handle as int),
        ensures
            self.withdraw::<Backend>() == (None::<Node<'a, P>>, self),
    {
    }

    /// What waits once the successors of `parent` by `actions` were
    /// generated, in the order of the actions: each is offered, unless its
    /// state is among `explored`.
    pub open spec fn grow(
        self,
        problem: &P,
        parent: &'a Node<'a, P>,
        explored: Set<P::State>,
        actions: Seq<P::Action>,
    ) -> Self
        decreases actions.len(),
    {
        if actions.len() == 0 {
            self
        } else {
            let before = self.grow(problem, parent, explored, actions.drop_last());
            let made = child(problem, parent, actions.last());
            if explored.contains(made.state) {
                before
            } else {
                before.offer(made)
            }
        }
    }

    #[via_fn]
    proof fn withdraw_ends<Backend: FrontierBackend>(self) {
        if exists|handle: usize| self.leads::<Backend>(handle) {
            let handle = self.first::<Backend>();
            lemma_filled_update(self.entries, handle as int);
        }
    }
}

/// What a graph search holds between two rounds: what waits, and the states
/// that were expanded.
pub struct Exploring<'a, P: Utility> {
    pub waiting: Waiting<'a, P>,
    pub explored: Set<P::State>,
}

/// How a round ends.
pub enum Turn<'a, P: Utility> {
    /// No live node waited.
    Exhausted,
    /// The node that was withdrawn is suitable.
    Found(Node<'a, P>),
    /// The node that was withdrawn is not suitable and was dealt with.
    Continued,
    /// The node that was withdrawn is not suitable and is as deep as a
    /// node can be: it cannot be expanded.
    Stalled,
}

impl<'a, P: StateExplorerProblem> Exploring<'a, P> {
    /// The search as it starts from `init`: the root waits, and nothing was
    /// expanded.
    pub open spec fn start(problem: &P, init: P::State) -> Self {
        Exploring { waiting: Waiting::empty().offer(root(problem, init)), explored: Set::empty() }
    }

    /// A round under the bound `lim` may end as `turn` says, the search
    /// holding `next` then: as `round` has it, but that any handle which
    /// leads may be the one that the backend lets go.
    pub open spec fn may_round<Backend: FrontierBackend>(
        self,
        problem: &P,
        lim: Option<usize>,
        turn: Turn<'a, P>,
        next: Self,
    ) -> bool {
        exists|taken: Option<Node<'a, P>>, rest: Waiting<'a, P>| #[trigger]
            self.waiting.may_withdraw::<Backend>(taken, rest) && (turn, next) == self.settle(
                problem,
                lim,
                taken,
                rest,
            )
    }

    /// An attempt may end as `ending` says, from here on: as `run` has it,
    /// but that any handle which leads may be the one that the backend lets
    /// go.
    pub open spec fn may_run<Backend: FrontierBackend>(
        self,
        problem: &P,
        lim: Option<usize>,
        fuel: nat,
        rounds: nat,
        largest: nat,
        ending: Ending<'a, P>,
    ) -> bool
        decreases fuel,
    {
        if fuel == 0 {
            ending == (Ending::<P> {
                found: None,
                rounds,
                largest,
                gave_up: self.waiting.index.len() != 0,
            })
        } else {
            exists|turn: Turn<'a, P>, next: Self| #[trigger]
                self.may_round::<Backend>(problem, lim, turn, next) && match turn {
                    Turn::Exhausted => ending == (Ending::<P> {
                        found: None,
                        rounds,
                        largest,
                        gave_up: false,
                    }),
                    Turn::Found(node) => ending == (Ending::<P> {
                        found: Some(node),
                        rounds: rounds + 1,
                        largest,
                        gave_up: false,
                    }),
                    Turn::Stalled => ending == (Ending::<P> {
                        found: None,
                        rounds: rounds + 1,
                        largest,
                        gave_up: true,
                    }),
                    Turn::Continued => next.may_run::<Backend>(
                        problem,
                        lim,
                        (fuel - 1) as nat,
                        rounds + 1,
                        if largest < next.waiting.index.len() {
                            next.waiting.index.len()
                        } else {
                            largest
                        },
                        ending,
                    ),
                }
        }
    }

    /// One round under the bound `lim`: how it ends, and what the search
    /// holds then. A node is withdrawn; if it is suitable, the round has
    /// found it; if not, its state counts as expanded and, unless its depth
    /// has reached the bound, its successors are generated.
    pub open spec fn round<Backend: FrontierBackend>(self, problem: &P, lim: Option<usize>) -> (
        Turn<'a, P>,
        Self,
    ) {
        let (taken, rest) = self.waiting.withdraw::<Backend>();
        self.settle(problem, lim, taken, rest)
    }

    /// What becomes of a round once `taken` was withdrawn and `rest` waits.
    pub open spec fn settle(
        self,
        problem: &P,
        lim: Option<usize>,
        taken: Option<Node<'a, P>>,
        rest: Waiting<'a, P>,
    ) -> (Turn<'a, P>, Self) {
        match taken {
            None => (Turn::Exhausted, Exploring { waiting: rest, explored: self.explored }),
            Some(node) => {
                if problem.suitable(node.state) {
                    (Turn::Found(node), Exploring { waiting: rest, explored: self.explored })
                } else if !within(lim, node.depth) {
                    (
                        Turn::Continued,
                        Exploring { waiting: rest, explored: self.explored.insert(node.state) },
                    )
                } else if node.depth == usize::MAX {
                    (Turn::Stalled, Exploring { waiting: rest, explored: self.explored })
                } else {
                    (
                        Turn::Continued,
                        Exploring {
                            waiting: rest.grow(
                                problem,
                                &node,
                                self.explored,
                                problem.actions(node.state),
                            ),
                            explored: self.explored.insert(node.state),
                        },
                    )
                }
            },
        }
    }
}

/// How an attempt ends: the node it found, if it found one; the number of
/// nodes it has withdrawn, counted on from where the count stood; the
/// largest number of live nodes that waited at the end of a round; and
/// whether it gave up, because a node could not be expanded, or because the
/// count could go no further while nodes were still waiting.
pub struct Ending<'a, P: Utility> {
    pub found: Option<Node<'a, P>>,
    pub rounds: nat,
    pub largest: nat,
    pub gave_up: bool,
}

impl<'a, P: StateExplorerProblem> Exploring<'a, P> {
    /// The rounds of an attempt, from here on: at most `fuel` of them, the
    /// count of nodes withdrawn standing at `rounds` and the largest
    /// frontier so far at `largest`.
    pub open spec fn run<Backend: FrontierBackend>(
        self,
        problem: &P,
        lim: Option<usize>,
        fuel: nat,
        rounds: nat,
        largest: nat,
    ) -> Ending<'a, P>
        decreases fuel,
    {
        if fuel == 0 {
            Ending { found: None, rounds, largest, gave_up: self.waiting.index.len() != 0 }
        } else {
            let (turn, next) = self.round::<Backend>(problem, lim);
            match turn {
                Turn::Exhausted => Ending { found: None, rounds, largest, gave_up: false },
                Turn::Found(node) => Ending {
                    found: Some(node),
                    rounds: rounds + 1,
                    largest,
                    gave_up: false,
                },
                Turn::Stalled => Ending { found: None, rounds: rounds + 1, largest, gave_up: true },
                Turn::Continued => next.run::<Backend>(
                    problem,
                    lim,
                    (fuel - 1) as nat,
                    rounds + 1,
                    if largest < next.waiting.index.len() {
                        next.waiting.index.len()
                    } else {
                        largest
                    },
                ),
            }
        }
    }
}

/// The attempt from `init` under the bound `lim`, with the count of nodes
/// withdrawn standing at `rounds` when it begins.
pub open spec fn attempt<'a, P: StateExplorerProblem, Backend: FrontierBackend>(
    problem: &P,
    init: P::State,
    lim: Option<usize>,
    rounds: nat,
) -> Ending<'a, P> {
    Exploring::start(problem, init).run::<Backend>(
        problem,
        lim,
        (usize::MAX - rounds) as nat,
        rounds,
        0,
    )
}

/// The attempt from `init` under the bound `lim` may end as `ending` says,
/// whichever of the handles that lead the backend lets go.
pub open spec fn may_attempt<'a, P: StateExplorerProblem, Backend: FrontierBackend>(
    problem: &P,
    init: P::State,
    lim: Option<usize>,
    rounds: nat,
    ending: Ending<'a, P>,
) -> bool {
    Exploring::start(problem, init).may_run::<Backend>(
        problem,
        lim,
        (usize::MAX - rounds) as nat,
        rounds,
        0,
        ending,
    )
}

/// A deepening search from the bound `lim` on may end as `ending` says,
/// whichever of the handles that lead the backend lets go.
pub open spec fn may_deepen<'a, P: StateExplorerProblem, Backend: FrontierBackend>(
    problem: &P,
    init: P::State,
    ceiling: usize,
    lim: usize,
    largest: nat,
    rounds: nat,
    ending: Ending<'a, P>,
) -> bool
    decreases ceiling - lim + 1,
{
    if lim > ceiling {
        ending == (Ending::<P> { found: None, rounds, largest, gave_up: false })
    } else {
        exists|tried: Ending<'a, P>| #[trigger]
            may_attempt::<P, Backend>(problem, init, Some(lim), 0, tried) && if tried.gave_up
                || tried.found is Some || lim == ceiling {
                ending == (Ending::<P> {
                    found: tried.found,
                    rounds: tried.rounds,
                    largest: if largest < tried.largest {
                        tried.largest
                    } else {
                        largest
                    },
                    gave_up: tried.gave_up,
                })
            } else {
                may_deepen::<P, Backend>(
                    problem,
                    init,
                    ceiling,
                    (lim + 1) as usize,
                    if largest < tried.largest {
                        tried.largest
                    } else {
                        largest
                    },
                    tried.rounds,
                    ending,
                )
            }
    }
}

/// The attempts of a deepening search from the bound `lim` on, up to the
/// bound `ceiling`: the first that finds a node ends the search. `largest`
/// is the largest frontier of the attempts before, and `rounds` what the
/// last of them counted.
pub open spec fn deepen<'a, P: StateExplorerProblem, Backend: FrontierBackend>(
    problem: &P,
    init: P::State,
    ceiling: usize,
    lim: usize,
    largest: nat,
    rounds: nat,
) -> Ending<'a, P>
    decreases ceiling - lim + 1,
{
    if lim > ceiling {
        Ending { found: None, rounds, largest, gave_up: false }
    } else {
        let tried = attempt::<P, Backend>(problem, init, Some(lim), 0);
        let widest = if largest < tried.largest {
            tried.largest
        } else {
            largest
        };
        if tried.gave_up || tried.found is Some || lim == ceiling {
            Ending {
                found: tried.found,
                rounds: tried.rounds,
                largest: widest,
                gave_up: tried.gave_up,
            }
        } else {
            deepen::<P, Backend>(problem, init, ceiling, (lim + 1) as usize, widest, tried.rounds)
        }
    }
}

/// Iterative-deepening monotonicity. A deepening search that does not give
/// up finds a node exactly if the attempt under one of its bounds does:
/// the bounds from `lim` to `ceiling`.
pub proof fn lemma_deepening<'a, P: StateExplorerProblem, Backend: FrontierBackend>(
    problem: &P,
    init: P::State,
    ceiling: usize,
    lim: usize,
    largest: nat,
    rounds: nat,
)
    requires
        !deepen::<P, Backend>(problem, init, ceiling, lim, largest, rounds).gave_up,
    ensures
        deepen::<P, Backend>(problem, init, ceiling, lim, largest, rounds).found is Some
            <==> exists|bound: usize|
            lim <= bound <= ceiling && (#[trigger] attempt::<P, Backend>(
                problem,
                init,
                Some(bound),
                0,
            )).found is Some,
    decreases ceiling - lim + 1,
{
    if lim <= ceiling {
        let tried = attempt::<P, Backend>(problem, init, Some(lim), 0);
        let widest = if largest < tried.largest {
            tried.largest
        } else {
            largest
        };
        if tried.gave_up || tried.found is Some || lim == ceiling {
            if tried.found is None {
                assert forall|bound: usize| lim <= bound <= ceiling implies !((
                #[trigger] attempt::<P, Backend>(problem, init, Some(bound), 0)).found is Some) by {
                    assert(bound == lim);
                }
            }
        } else {
            lemma_deepening::<P, Backend>(
                problem,
                init,
                ceiling,
                (lim + 1) as usize,
                widest,
                tried.rounds,
            );
            if exists|bound: usize|
                lim <= bound <= ceiling && (#[trigger] attempt::<P, Backend>(
                    problem,
                    init,
                    Some(bound),
                    0,
                )).found is Some {
                let bound = choose|bound: usize|
                    lim <= bound <= ceiling && (#[trigger] attempt::<P, Backend>(
                        problem,
                        init,
                        Some(bound),
                        0,
                    )).found is Some;
                assert(bound != lim);
                assert(lim + 1 <= bound <= ceiling);
            }
        }
    }
}

/// The slots of a tree search once the successors of `parent` by `actions`
/// were generated: each waits in a new slot, in the order of the actions.
pub open spec fn sprout<'a, P: Utility>(
    entries: Seq<Option<Node<'a, P>>>,
    problem: &P,
    parent: &'a Node<'a, P>,
    actions: Seq<P::Action>,
) -> Seq<Option<Node<'a, P>>>
    decreases actions.len(),
{
    if actions.len() == 0 {
        entries
    } else {
        sprout(entries, problem, parent, actions.drop_last()).push(
            Some(child(problem, parent, actions.last())),
        )
    }
}

/// The slots that were there stay as they are, and behind them waits a
/// node for each action, in order.
pub proof fn lemma_sprout<'a, P: Utility>(
    entries: Seq<Option<Node<'a, P>>>,
    problem: &P,
    parent: &'a Node<'a, P>,
    actions: Seq<P::Action>,
)
    ensures
        sprout(entries, problem, parent, actions).len() == entries.len() + actions.len(),
        forall|handle: int|
            0 <= handle < entries.len() ==> #[trigger] sprout(
                entries,
                problem,
                parent,
                actions,
            )[handle] == entries[handle],
        forall|place: int|
            0 <= place < actions.len() ==> #[trigger] sprout(entries, problem, parent, actions)[
                entries.len() + place
            ] == Some(child(problem, parent, actions[place])),
    decreases actions.len(),
{
    if actions.len() > 0 {
        lemma_sprout(entries, problem, parent, actions.drop_last());
    }
}

/// The handles of the slots in which a node waits.
pub open spec fn occupied<'a, P: Utility>(entries: Seq<Option<Node<'a, P>>>) -> Set<usize> {
    Set::new(|handle: usize| 0 <= handle < entries.len() && entries[handle as int] is Some)
}

/// One round of a tree search under the bound `lim`: how it ends, and the
/// slots then. The node that the backend lets go is withdrawn; if it is
/// suitable, the round has found it; if not, and unless its depth has
/// reached the bound, its successors are generated.
pub open spec fn tree_round<'a, P: StateExplorerProblem, Backend: FrontierBackend>(
    entries: Seq<Option<Node<'a, P>>>,
    problem: &P,
    lim: Option<usize>,
) -> (Turn<'a, P>, Seq<Option<Node<'a, P>>>) {
    let waiting = Waiting { entries, index: Map::empty() };
    if exists|handle: usize| waiting.leads::<Backend>(handle) {
        tree_settle(entries, problem, lim, waiting.first::<Backend>())
    } else {
        (Turn::Exhausted, entries)
    }
}

/// What becomes of a round of a tree search once the backend has let the
/// handle `handle` go.
pub open spec fn tree_settle<'a, P: StateExplorerProblem>(
    entries: Seq<Option<Node<'a, P>>>,
    problem: &P,
    lim: Option<usize>,
    handle: usize,
) -> (Turn<'a, P>, Seq<Option<Node<'a, P>>>) {
    let node = entries[handle as int]->0;
    let rest = entries.update(handle as int, None);
    if problem.suitable(node.state) {
        (Turn::Found(node), rest)
    } else if !within(lim, node.depth) {
        (Turn::Continued, rest)
    } else if node.depth == usize::MAX {
        (Turn::Stalled, rest)
    } else {
        (Turn::Continued, sprout(rest, problem, &node, problem.actions(node.state)))
    }
}

/// A round of a tree search may end as `turn` says, with the slots `next`
/// then: as `tree_round` has it, but that any handle which leads may be the
/// one that the backend lets go.
pub open spec fn tree_may_round<'a, P: StateExplorerProblem, Backend: FrontierBackend>(
    entries: Seq<Option<Node<'a, P>>>,
    problem: &P,
    lim: Option<usize>,
    turn: Turn<'a, P>,
    next: Seq<Option<Node<'a, P>>>,
) -> bool {
    ||| (forall|handle: usize|
        !(Waiting::<P> { entries, index: Map::empty() }).leads::<Backend>(handle)) && turn
        == Turn::<P>::Exhausted && next == entries
    ||| exists|handle: usize| #[trigger]
        (Waiting::<P> { entries, index: Map::empty() }).leads::<Backend>(handle) && (turn, next)
            == tree_settle(entries, problem, lim, handle)
}

/// An attempt of a tree search may end as `ending` says, from these slots
/// on: as `tree_run` has it, but that any handle which leads may be the one
/// that the backend lets go.
pub open spec fn tree_may_run<'a, P: StateExplorerProblem, Backend: FrontierBackend>(
    entries: Seq<Option<Node<'a, P>>>,
    problem: &P,
    lim: Option<usize>,
    fuel: nat,
    rounds: nat,
    largest: nat,
    ending: Ending<'a, P>,
) -> bool
    decreases fuel,
{
    if fuel == 0 {
        ending == (Ending::<P> {
            found: None,
            rounds,
            largest,
            gave_up: occupied(entries).len() != 0,
        })
    } else {
        exists|turn: Turn<'a, P>, next: Seq<Option<Node<'a, P>>>| #[trigger]
            tree_may_round::<P, Backend>(entries, problem, lim, turn, next) && match turn {
                Turn::Exhausted => ending == (Ending::<P> {
                    found: None,
                    rounds,
                    largest,
                    gave_up: false,
                }),
                Turn::Found(node) => ending == (Ending::<P> {
                    found: Some(node),
                    rounds: rounds + 1,
                    largest,
                    gave_up: false,
                }),
                Turn::Stalled => ending == (Ending::<P> {
                    found: None,
                    rounds: rounds + 1,
                    largest,
                    gave_up: true,
                }),
                Turn::Continued => tree_may_run::<P, Backend>(
                    next,
                    problem,
                    lim,
                    (fuel - 1) as nat,
                    rounds + 1,
                    if largest < occupied(next).len() {
                        occupied(next).len()
                    } else {
                        largest
                    },
                    ending,
                ),
            }
    }
}

/// The attempt of a tree search from `init` under the bound `lim` may end
/// as `ending` says, whichever of the handles that lead the backend lets
/// go.
pub open spec fn tree_may_attempt<'a, P: StateExplorerProblem, Backend: FrontierBackend>(
    problem: &P,
    init: P::State,
    lim: Option<usize>,
    rounds: nat,
    ending: Ending<'a, P>,
) -> bool {
    tree_may_run::<P, Backend>(
        seq![Some(root(problem, init))],
        problem,
        lim,
        (usize::MAX - rounds) as nat,
        rounds,
        0,
        ending,
    )
}

/// A deepening tree search from the bound `lim` on may end as `ending`
/// says, whichever of the handles that lead the backend lets go.
pub open spec fn tree_may_deepen<'a, P: StateExplorerProblem, Backend: FrontierBackend>(
    problem: &P,
    init: P::State,
    ceiling: usize,
    lim: usize,
    largest: nat,
    rounds: nat,
    ending: Ending<'a, P>,
) -> bool
    decreases ceiling - lim + 1,
{
    if lim > ceiling {
        ending == (Ending::<P> { found: None, rounds, largest, gave_up: false })
    } else {
        exists|tried: Ending<'a, P>| #[trigger]
            tree_may_attempt::<P, Backend>(problem, init, Some(lim), 0, tried) && if tried.gave_up
                || tried.found is Some || lim == ceiling {
                ending == (Ending::<P> {
                    found: tried.found,
                    rounds: tried.rounds,
                    largest: if largest < tried.largest {
                        tried.largest
                    } else {
                        largest
                    },
                    gave_up: tried.gave_up,
                })
            } else {
                tree_may_deepen::<P, Backend>(
                    problem,
                    init,
                    ceiling,
                    (lim + 1) as usize,
                    if largest < tried.largest {
                        tried.largest
                    } else {
                        largest
                    },
                    tried.rounds,
                    ending,
                )
            }
    }
}

/// The rounds of an attempt of a tree search, from these slots on: at most
/// `fuel` of them, the count of nodes withdrawn standing at `rounds` and
/// the largest number of waiting nodes so far at `largest`.
pub open spec fn tree_run<'a, P: StateExplorerProblem, Backend: FrontierBackend>(
    entries: Seq<Option<Node<'a, P>>>,
    problem: &P,
    lim: Option<usize>,
    fuel: nat,
    rounds: nat,
    largest: nat,
) -> Ending<'a, P>
    decreases fuel,
{
    if fuel == 0 {
        Ending { found: None, rounds, largest, gave_up: occupied(entries).len() != 0 }
    } else {
        let (turn, next) = tree_round::<P, Backend>(entries, problem, lim);
        match turn {
            Turn::Exhausted => Ending { found: None, rounds, largest, gave_up: false },
            Turn::Found(node) => Ending {
                found: Some(node),
                rounds: rounds + 1,
                largest,
                gave_up: false,
            },
            Turn::Stalled => Ending { found: None, rounds: rounds + 1, largest, gave_up: true },
            Turn::Continued => tree_run::<P, Backend>(
                next,
                problem,
                lim,
                (fuel - 1) as nat,
                rounds + 1,
                if largest < occupied(next).len() {
                    occupied(next).len()
                } else {
                    largest
                },
            ),
        }
    }
}

/// The attempt of a tree search from `init` under the bound `lim`, with the
/// count of nodes withdrawn standing at `rounds` when it begins.
pub open spec fn tree_attempt<'a, P: StateExplorerProblem, Backend: FrontierBackend>(
    problem: &P,
    init: P::State,
    lim: Option<usize>,
    rounds: nat,
) -> Ending<'a, P> {
    tree_run::<P, Backend>(
        seq![Some(root(problem, init))],
        problem,
        lim,
        (usize::MAX - rounds) as nat,
        rounds,
        0,
    )
}

/// The attempts of a deepening tree search from the bound `lim` on, up to
/// the bound `ceiling`: the first that finds a node ends the search.
pub open spec fn tree_deepen<'a, P: StateExplorerProblem, Backend: FrontierBackend>(
    problem: &P,
    init: P::State,
    ceiling: usize,
    lim: usize,
    largest: nat,
    rounds: nat,
) -> Ending<'a, P>
    decreases ceiling - lim + 1,
{
    if lim > ceiling {
        Ending { found: None, rounds, largest, gave_up: false }
    } else {
        let tried = tree_attempt::<P, Backend>(problem, init, Some(lim), 0);
        let widest = if largest < tried.largest {
            tried.largest
        } else {
            largest
        };
        if tried.gave_up || tried.found is Some || lim == ceiling {
            Ending {
                found: tried.found,
                rounds: tried.rounds,
                largest: widest,
                gave_up: tried.gave_up,
            }
        } else {
            tree_deepen::<P, Backend>(
                problem,
                init,
                ceiling,
                (lim + 1) as usize,
                widest,
                tried.rounds,
            )
        }
    }
}

/// Iterative-deepening monotonicity, for tree search. A deepening tree
/// search that does not give up finds a node exactly if the attempt under
/// one of its bounds does: the bounds from `lim` to `ceiling`.
pub proof fn lemma_tree_deepening<'a, P: StateExplorerProblem, Backend: FrontierBackend>(
    problem: &P,
    init: P::State,
    ceiling: usize,
    lim: usize,
    largest: nat,
    rounds: nat,
)
    requires
        !tree_deepen::<P, Backend>(problem, init, ceiling, lim, largest, rounds).gave_up,
    ensures
        tree_deepen::<P, Backend>(problem, init, ceiling, lim, largest, rounds).found is Some
            <==> exists|bound: usize|
            lim <= bound <= ceiling && (#[trigger] tree_attempt::<P, Backend>(
                problem,
                init,
                Some(bound),
                0,
            )).found is Some,
    decreases ceiling - lim + 1,
{
    if lim <= ceiling {
        let tried = tree_attempt::<P, Backend>(problem, init, Some(lim), 0);
        let widest = if largest < tried.largest {
            tried.largest
        } else {
            largest
        };
        if tried.gave_up || tried.found is Some || lim == ceiling {
            if tried.found is None {
                assert forall|bound: usize| lim <= bound <= ceiling implies !((
                #[trigger] tree_attempt::<P, Backend>(problem, init, Some(bound), 0)).found
                    is Some) by {
                    assert(bound == lim);
                }
            }
        } else {
            lemma_tree_deepening::<P, Backend>(
                problem,
                init,
                ceiling,
                (lim + 1) as usize,
                widest,
                tried.rounds,
            );
            if exists|bound: usize|
                lim <= bound <= ceiling && (#[trigger] tree_attempt::<P, Backend>(
                    problem,
                    init,
                    Some(bound),
                    0,
                )).found is Some {
                let bound = choose|bound: usize|
                    lim <= bound <= ceiling && (#[trigger] tree_attempt::<P, Backend>(
                        problem,
                        init,
                        Some(bound),
                        0,
                    )).found is Some;
                assert(bound != lim);
                assert(lim + 1 <= bound <= ceiling);
            }
        }
    }
}

/// A report says what the attempt came to: the state of the node that was
/// found and the plan that leads to it, or neither; the count of nodes
/// withdrawn; and the largest frontier.
pub open spec fn reports<'a, P: Utility>(
    ending: Ending<'a, P>,
    state: Option<P::State>,
    actions: Option<Vec<P::Action>>,
    n_iter: usize,
    max_frontier_size: usize,
) -> bool {
    &&& !ending.gave_up
    &&& n_iter == ending.rounds
    &&& max_frontier_size == ending.largest
    &&& match ending.found {
        Some(node) => state == Some(node.state) && actions is Some && actions->0@ == node.plan(),
        None => state is None && actions is None,
    }
}

/// The node that a search starts with: `init`, reached by no action at no
/// cost.
pub open spec fn root<'a, P: Utility>(problem: &P, init: P::State) -> Node<'a, P> {
    Node {
        state: init,
        parent: None,
        action: None,
        total_cost: 0,
        heuristic: problem.estimate(init),
        depth: 0,
        dead: false,
    }
}

/// The node that is made for the state that `action` leads to from the
/// state of `parent`.
pub open spec fn child<'a, P: Utility>(
    problem: &P,
    parent: &'a Node<'a, P>,
    action: P::Action,
) -> Node<'a, P> {
    Node {
        state: problem.outcome(parent.state, action).0,
        parent: Some(parent),
        action: Some(action),
        total_cost: (parent.total_cost + problem.outcome(parent.state, action).1) as u128,
        heuristic: problem.estimate(problem.outcome(parent.state, action).0),
        depth: (parent.depth + 1) as usize,
        dead: false,
    }
}

/// The number of slots in which a node waits.
pub open spec fn filled<'a, P: Utility>(entries: Seq<Option<Node<'a, P>>>) -> nat
    decreases entries.len(),
{
    if entries.len() == 0 {
        0
    } else {
        filled(entries.drop_last()) + if entries.last() is Some {
            1nat
        } else {
            0nat
        }
    }
}

/// A node that leaves its slot leaves one slot fewer filled.
pub proof fn lemma_filled_update<'a, P: Utility>(entries: Seq<Option<Node<'a, P>>>, handle: int)
    requires
        0 <= handle < entries.len(),
        entries[handle] is Some,
    ensures
        filled(entries.update(handle, None)) + 1 == filled(entries),
    decreases entries.len(),
{
    let emptied = entries.update(handle, None);
    if handle == entries.len() - 1 {
        assert(emptied.drop_last() == entries.drop_last());
    } else {
        assert(emptied.drop_last() == entries.drop_last().update(handle, None));
        lemma_filled_update(entries.drop_last(), handle);
    }
}

/// The deque lets one handle go first: the one that came first.
pub proof fn lemma_deque_is_strict()
    ensures
        strict::<DequeBackend>(),
{
}

/// The stack lets one handle go first: the one that came last.
pub proof fn lemma_stack_is_strict()
    ensures
        strict::<StackBackend>(),
{
}

/// The backend's rule never puts two handles before each other: among the
/// nodes that wait, one leads.
pub open spec fn strict<Backend: FrontierBackend>() -> bool {
    forall|first: usize, first_key: u128, second: usize, second_key: u128|
        #![trigger Backend::precedes(first, first_key, second, second_key)]
        Backend::precedes(first, first_key, second, second_key) && Backend::precedes(
            second,
            second_key,
            first,
            first_key,
        ) ==> first == second
}

} // verus!
