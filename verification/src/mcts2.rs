//! Monte Carlo tree search in an arena.

use std::ops::ControlFlow;

use bumpalo::Bump;
use vstd::prelude::*;
use crate::arena::{alloc_items, arena_bytes, new_arena};
use crate::clock::{millis_since, now};
use crate::util::{argmax, as_ints, is_last_max, last_max_is_unique, Finite};

verus! {

/// A game state that can be searched. "Sente" is the player who moves first.
pub trait MctsState: Copy + Sized {
    /// Whether the state is one that the game can reach.
    open spec fn valid(&self) -> bool {
        true
    }

    /// `Some(true)` where sente has won, `Some(false)` where gote has.
    open spec fn outcome(&self) -> Option<bool> {
        None
    }

    /// The states that the moves lead to.
    open spec fn successors(&self) -> Seq<Self> {
        Seq::empty()
    }

    /// Whether a random game from here can end with this winner.
    open spec fn may_end(&self, sente_win: bool) -> bool {
        true
    }

    /// How many moves a state has at most.
    open spec fn move_limit() -> nat {
        0
    }

    fn init() -> (state: Self)
        ensures
            state.valid(),
            state.outcome() is None,
    ;

    fn max_move_count() -> (count: usize)
        ensures
            count == Self::move_limit(),
    ;

    /// Return Some(true) for sente win, Some(false) for gote win, and None for
    /// intermediate game states.
    fn terminal(&self) -> (winner: Option<bool>)
        ensures
            winner == self.outcome(),
    ;

    /// Return true for sente win and false for gote win.
    fn rollout(&self) -> (sente_win: bool)
        ensures
            self.may_end(sente_win),
    ;

    fn children(&self) -> (children: Vec<Self>)
        requires
            self.valid(),
        ensures
            children@ == self.successors(),
            children@.len() <= Self::move_limit(),
            forall|i: int| 0 <= i < children@.len() ==> (#[trigger] children@[i]).valid(),
            self.outcome() is None ==> children@.len() > 0,
    ;
}

/// A state with the results of the games that were played through it.
pub struct MctsNode<'a, S> {
    pub state: S,
    pub children: Option<&'a mut [MctsNode<'a, S>]>,
    pub num_wins: u32,
    pub num_sims: u32,
    pub terminal: Option<bool>,
}

/// What an iteration adds to every node on its way.
#[derive(Copy, Clone, Debug)]
pub struct MctsBackprop {
    pub num_wins: u32,
    pub num_sims: u32,
    pub depth: usize,
}

impl MctsBackprop {
    /// Both together.
    fn add(self, rhs: Self) -> (sum: Self)
        requires
            self.num_wins + rhs.num_wins <= u32::MAX,
            self.num_sims + rhs.num_sims <= u32::MAX,
        ensures
            sum.num_wins == self.num_wins + rhs.num_wins,
            sum.num_sims == self.num_sims + rhs.num_sims,
            sum.depth == if self.depth >= rhs.depth {
                self.depth
            } else {
                rhs.depth
            },
    {
        MctsBackprop {
            num_wins: self.num_wins + rhs.num_wins,
            num_sims: self.num_sims + rhs.num_sims,
            depth: if self.depth >= rhs.depth {
                self.depth
            } else {
                rhs.depth
            },
        }
    }
}

/// How many games went through the nodes.
pub open spec fn total_sims<'a, S>(nodes: Seq<MctsNode<'a, S>>) -> nat
    decreases nodes.len(),
{
    if nodes.len() == 0 {
        0
    } else {
        total_sims(nodes.drop_last()) + nodes.last().num_sims as nat
    }
}

/// How many of those games sente won.
pub open spec fn total_wins<'a, S>(nodes: Seq<MctsNode<'a, S>>) -> nat
    decreases nodes.len(),
{
    if nodes.len() == 0 {
        0
    } else {
        total_wins(nodes.drop_last()) + nodes.last().num_wins as nat
    }
}

/// The ranks of the scores.
pub open spec fn ranks(scores: Seq<Finite>) -> Seq<int> {
    Seq::new(scores.len(), |i: int| scores[i].rank())
}

/// Whether `scores` are what `score` makes of the nodes, for the player who moves to them.
pub open spec fn scored<'a, S, F: Fn(u32, u32, u32) -> Finite>(
    nodes: Seq<MctsNode<'a, S>>,
    sente: bool,
    total: u32,
    score: F,
    scores: Seq<Finite>,
) -> bool {
    &&& scores.len() == nodes.len()
    &&& forall|i: int|
        0 <= i < nodes.len() ==> call_ensures(
            score,
            (nodes[i].wins_for(sente), nodes[i].num_sims, total),
            #[trigger] scores[i],
        )
}

/// Whether node `i` is the last of those with the best score.
pub open spec fn selected<'a, S, F: Fn(u32, u32, u32) -> Finite>(
    nodes: Seq<MctsNode<'a, S>>,
    sente: bool,
    total: u32,
    score: F,
    i: int,
) -> bool {
    exists|scores: Seq<Finite>|
        #[trigger] scored(nodes, sente, total, score, scores) && is_last_max(ranks(scores), i)
}

/// How many games each node has seen.
pub open spec fn sims_of<'a, S>(nodes: Seq<MctsNode<'a, S>>) -> Seq<int> {
    Seq::new(nodes.len(), |i: int| nodes[i].num_sims as int)
}

/// Whether `score` can be asked for any number of wins among some games.
pub open spec fn scorable<F: Fn(u32, u32, u32) -> Finite>(score: F) -> bool {
    forall|wins: u32, sims: u32, total: u32|
        wins <= sims && 0 < sims && 0 < total ==> call_requires(score, (wins, sims, total))
}

impl<'a, S> MctsNode<'a, S> {
    /// How many of the games the given player won.
    pub open spec fn wins_for(self, sente: bool) -> u32 {
        if sente {
            self.num_wins
        } else {
            (self.num_sims - self.num_wins) as u32
        }
    }

    /// The nodes below, none where there are none yet.
    pub open spec fn below(self) -> Seq<MctsNode<'a, S>> {
        match self.children {
            Some(nodes) => nodes@,
            None => Seq::empty(),
        }
    }
}

impl<'a, S: MctsState> MctsNode<'a, S> {
    /// Whether the node and all below it are what the games played make them.
    pub open spec fn ok(self) -> bool
        decreases self.num_sims,
    {
        &&& self.state.valid()
        &&& self.terminal == self.state.outcome()
        &&& self.num_sims >= 1
        &&& self.num_wins <= self.num_sims
        &&& self.children is Some ==> {
            &&& self.terminal is None
            &&& self.below().len() == self.state.successors().len()
            &&& self.below().len() > 0
            &&& self.num_sims == 1 + total_sims(self.below())
            &&& total_wins(self.below()) <= self.num_wins <= 1 + total_wins(self.below())
            &&& forall|i: int|
                0 <= i < self.below().len() ==> (#[trigger] self.below()[i]).num_sims
                    < self.num_sims && self.below()[i].ok() && self.below()[i].state
                    == self.state.successors()[i]
        }
        &&& self.children is None && self.terminal is None ==> self.num_sims == 1
    }

    /// Whether this is a node of one random game.
    pub open spec fn fresh(self, state: S) -> bool {
        &&& self.state == state
        &&& self.terminal == state.outcome()
        &&& self.children is None
        &&& self.num_sims == 1
        &&& self.num_wins == 1 && state.may_end(true) || self.num_wins == 0 && state.may_end(false)
    }

    /// Whether an iteration can make this node `after` and report `back`.
    ///
    /// A decided node counts a hundred games. A node without children gets all of them and counts
    /// their games. Any other node passes the iteration on to the child with the best score. What
    /// is reported is what each node on the way adds to its counts, and how far down it was found.
    pub open spec fn iterated<F: Fn(u32, u32, u32) -> Finite>(
        self,
        after: MctsNode<'a, S>,
        back: MctsBackprop,
        sente: bool,
        score: F,
    ) -> bool
        decreases self.num_sims,
    {
        &&& after.state == self.state
        &&& after.terminal == self.terminal
        &&& after.num_wins == self.num_wins + back.num_wins
        &&& after.num_sims == self.num_sims + back.num_sims
        &&& match self.terminal {
            Some(sente_win) => {
                &&& after.children is None
                &&& back.num_sims == 100
                &&& back.num_wins == if sente_win {
                    100int
                } else {
                    0
                }
                &&& back.depth == 0
            },
            None => if self.children is None {
                &&& after.children is Some
                &&& after.below().len() == self.state.successors().len()
                &&& forall|i: int|
                    0 <= i < after.below().len() ==> (#[trigger] after.below()[i]).fresh(
                        self.state.successors()[i],
                    )
                &&& back.num_sims == total_sims(after.below())
                &&& back.num_wins == total_wins(after.below())
                &&& back.depth == 1
            } else {
                &&& after.children is Some
                &&& after.below().len() == self.below().len()
                &&& back.depth > 0
                &&& exists|i: int|
                    #![trigger after.below()[i]]
                    {
                        &&& 0 <= i < self.below().len()
                        &&& selected(self.below(), sente, self.num_sims, score, i)
                        &&& after.below() == self.below().update(i, after.below()[i])
                        &&& self.below()[i].num_sims < self.num_sims
                        &&& self.below()[i].iterated(
                            after.below()[i],
                            MctsBackprop { depth: (back.depth - 1) as usize, ..back },
                            !sente,
                            score,
                        )
                    }
            },
        }
    }

    /// Whether `best` is the state of the last of the most visited children.
    pub open spec fn picks(self, best: S) -> bool {
        exists|i: int|
            is_last_max(sims_of(self.below()), i) && best == #[trigger] self.below()[i].state
    }

    /// Whether there may be no room for another iteration in the 32-bit counts.
    pub open spec fn full(self) -> bool {
        self.num_sims + 100 > u32::MAX || self.num_sims + S::move_limit() > u32::MAX
    }

    /// Whether the search below this node stands like this.
    pub open spec fn stands(self, stats: MctsStats<S>) -> bool {
        &&& stats.num_wins == self.num_wins
        &&& stats.num_sims == self.num_sims
        &&& self.picks(stats.best_state)
        &&& self.leads_to(stats.best_state_leaf)
    }

    /// Whether following the most visited child from here ends at `leaf`.
    pub open spec fn leads_to(self, leaf: S) -> bool
        decreases self.num_sims,
    {
        if self.terminal is Some || self.children is None {
            leaf == self.state
        } else {
            exists|i: int|
                #![trigger self.below()[i]]
                {
                    &&& is_last_max(sims_of(self.below()), i)
                    &&& self.below()[i].num_sims < self.num_sims
                    &&& self.below()[i].leads_to(leaf)
                }
        }
    }

    /// A node of one game.
    pub fn new(state: S) -> (node: MctsNode<'a, S>)
        requires
            state.valid(),
        ensures
            node.fresh(state),
            node.ok(),
    {
        let terminal = state.terminal();
        let rollout = state.rollout();
        let num_wins: u32 = if rollout {
            1
        } else {
            0
        };
        let num_sims: u32 = 1;
        MctsNode { state, terminal, num_wins, num_sims, children: None }
    }

    /// The place of the last child with the best score.
    fn select<F: Fn(u32, u32, u32) -> Finite>(
        nodes: &[MctsNode<'a, S>],
        sente: bool,
        total: u32,
        score: &F,
    ) -> (place: usize)
        requires
            nodes@.len() > 0,
            total > 0,
            scorable(*score),
            forall|i: int| 0 <= i < nodes@.len() ==> (#[trigger] nodes@[i]).ok(),
        ensures
            0 <= place < nodes@.len(),
            selected(nodes@, sente, total, *score, place as int),
    {
        let mut keys: Vec<i64> = Vec::new();
        let ghost mut scores: Seq<Finite> = Seq::empty();
        let mut i: usize = 0;
        while i < nodes.len()
            invariant
                i <= nodes@.len(),
                total > 0,
                scorable(*score),
                forall|j: int| 0 <= j < nodes@.len() ==> (#[trigger] nodes@[j]).ok(),
                keys@.len() == i,
                scores.len() == i,
                forall|j: int| 0 <= j < i ==> #[trigger] keys@[j] == scores[j].rank(),
                forall|j: int|
                    0 <= j < i ==> call_ensures(
                        *score,
                        (nodes@[j].wins_for(sente), nodes@[j].num_sims, total),
                        #[trigger] scores[j],
                    ),
            decreases nodes@.len() - i,
        {
            let node = &nodes[i];
            assert(nodes@[i as int].ok());
            let wins: u32 = if sente {
                node.num_wins
            } else {
                node.num_sims - node.num_wins
            };
            let x = score(wins, node.num_sims, total);
            keys.push(x.order());
            proof {
                scores = scores.push(x);
            }
            i = i + 1;
        }
        assert(as_ints(keys@) =~= ranks(scores));
        match argmax(&keys) {
            Some(place) => {
                assert(scored(nodes@, sente, total, *score, scores));
                place
            },
            None => 0,
        }
    }

    /// The place of the last child with the most games.
    fn most_visited(nodes: &[MctsNode<'a, S>]) -> (place: usize)
        requires
            nodes@.len() > 0,
        ensures
            is_last_max(sims_of(nodes@), place as int),
    {
        let mut keys: Vec<i64> = Vec::new();
        let mut i: usize = 0;
        while i < nodes.len()
            invariant
                i <= nodes@.len(),
                keys@.len() == i,
                forall|j: int| 0 <= j < i ==> #[trigger] keys@[j] == nodes@[j].num_sims,
            decreases nodes@.len() - i,
        {
            keys.push(nodes[i].num_sims as i64);
            i = i + 1;
        }
        assert(as_ints(keys@) =~= sims_of(nodes@));
        match argmax(&keys) {
            Some(place) => place,
            None => 0,
        }
    }

    /// One more iteration: descend by the best score and grow the tree where it ends. `sente` says
    /// who moves here.
    pub fn iter<F: Fn(u32, u32, u32) -> Finite>(
        &mut self,
        arena: &'a Bump,
        sente: bool,
        score: &F,
    ) -> (back: MctsBackprop)
        requires
            old(self).ok(),
            old(self).num_sims + S::move_limit() <= u32::MAX,
            old(self).num_sims + 100 <= u32::MAX,
            scorable(*score),
        ensures
            final(self).ok(),
            old(self).iterated(*final(self), back, sente, *score),
            1 <= back.num_sims,
            back.num_sims <= 100 || back.num_sims <= S::move_limit(),
            back.num_wins <= back.num_sims,
            back.depth <= old(self).num_sims,
            final(self).terminal is None ==> final(self).children is Some,
        decreases old(self).num_sims,
    {
        if let Some(sente_win) = self.terminal {
            // terminal nodes expand immediately
            let back = MctsBackprop {
                num_wins: if sente_win {
                    100
                } else {
                    0
                },
                num_sims: 100,
                depth: 0,
            };
            self.num_wins = self.num_wins + back.num_wins;
            self.num_sims = self.num_sims + back.num_sims;
            return back;
        }
        let ghost sims = self.num_sims;
        let back;
        if let Some(nodes) = &mut self.children {
            // continue selection
            let ghost before = nodes@;
            let place: usize = Self::select(nodes, sente, self.num_sims, score);
            proof {
                assert(before[place as int].num_sims < sims);
            }
            let deeper = nodes[place].iter(arena, !sente, score);
            proof {
                assert(nodes@ =~= before.update(place as int, nodes@[place as int]));
                lemma_total_update(before, place as int, nodes@[place as int]);
                lemma_total_below(nodes@);
            }
            back = MctsBackprop {
                num_wins: deeper.num_wins,
                num_sims: deeper.num_sims,
                depth: deeper.depth + 1,
            };
        } else {
            let states = self.state.children();
            let ghost all = states@;
            let mut nodes: Vec<MctsNode<'a, S>> = Vec::new();
            let mut sum = MctsBackprop { num_wins: 0, num_sims: 0, depth: 1 };
            let mut i: usize = 0;
            while i < states.len()
                invariant
                    states@ == all,
                    i <= all.len(),
                    all.len() <= S::move_limit(),
                    S::move_limit() < u32::MAX,
                    forall|j: int| 0 <= j < all.len() ==> (#[trigger] all[j]).valid(),
                    nodes@.len() == i,
                    forall|j: int|
                        0 <= j < i ==> (#[trigger] nodes@[j]).fresh(all[j]) && nodes@[j].ok(),
                    sum.num_sims == i,
                    sum.num_wins <= sum.num_sims,
                    sum.depth == 1,
                    sum.num_sims == total_sims(nodes@),
                    sum.num_wins == total_wins(nodes@),
                decreases all.len() - i,
            {
                let ghost before = nodes@;
                let node = MctsNode::new(states[i]);
                sum = sum.add(
                    MctsBackprop { num_wins: node.num_wins, num_sims: node.num_sims, depth: 1 },
                );
                nodes.push(node);
                assert(nodes@.drop_last() == before);
                i = i + 1;
            }
            back = sum;
            let ghost made = nodes@;
            let slice = alloc_items(arena, nodes);
            proof {
                lemma_total_below(made);
            }
            self.children = Some(slice);
        }
        self.num_wins = self.num_wins + back.num_wins;
        self.num_sims = self.num_sims + back.num_sims;
        back
    }

    /// The state of the most visited child.
    pub fn best(&self) -> (best: S)
        requires
            self.ok(),
            self.children is Some,
        ensures
            self.picks(best),
    {
        match &self.children {
            Some(nodes) => {
                let place: usize = Self::most_visited(nodes);
                assert(self.below()[place as int] == nodes@[place as int]);
                nodes[place].state
            },
            None => self.state,
        }
    }

    /// How the search below this node stands.
    pub fn stats(&self, arena: &Bump, min_depth: usize, max_depth: usize) -> (stats: MctsStats<S>)
        requires
            self.ok(),
            self.children is Some,
        ensures
            self.stands(stats),
            stats.min_depth == min_depth,
            stats.max_depth == max_depth,
    {
        MctsStats {
            num_wins: self.num_wins,
            num_sims: self.num_sims,
            min_depth,
            max_depth,
            allocated_bytes: arena_bytes(arena),
            best_state: self.best(),
            best_state_leaf: self.best_leaf(),
        }
    }

    /// The state at the end of the most visited line.
    pub fn best_leaf(&self) -> (leaf: S)
        requires
            self.ok(),
        ensures
            self.leads_to(leaf),
        decreases self.num_sims,
    {
        if let Some(_) = self.terminal {
            return self.state;
        }
        match &self.children {
            Some(nodes) => {
                let place: usize = Self::most_visited(nodes);
                assert(self.below()[place as int] == nodes@[place as int]);
                nodes[place].best_leaf()
            },
            None => self.state,
        }
    }
}

proof fn lemma_total_below<'a, S: MctsState>(nodes: Seq<MctsNode<'a, S>>)
    requires
        forall|i: int| 0 <= i < nodes.len() ==> (#[trigger] nodes[i]).ok(),
    ensures
        total_wins(nodes) <= total_sims(nodes),
        forall|i: int| 0 <= i < nodes.len() ==> (#[trigger] nodes[i]).num_sims <= total_sims(nodes),
        total_sims(nodes) >= nodes.len(),
    decreases nodes.len(),
{
    if nodes.len() > 0 {
        let less = nodes.drop_last();
        assert forall|i: int| 0 <= i < less.len() implies (#[trigger] less[i]).ok() by {
            assert(nodes[i].ok());
        }
        lemma_total_below(less);
        assert(nodes[nodes.len() - 1].ok());
        assert forall|i: int| 0 <= i < nodes.len() implies (#[trigger] nodes[i]).num_sims
            <= total_sims(nodes) by {
            if i < less.len() {
                assert(less[i].num_sims <= total_sims(less));
            }
        }
    }
}

proof fn lemma_total_update<'a, S>(nodes: Seq<MctsNode<'a, S>>, i: int, node: MctsNode<'a, S>)
    requires
        0 <= i < nodes.len(),
    ensures
        total_sims(nodes.update(i, node)) == total_sims(nodes) + node.num_sims - nodes[i].num_sims,
        total_wins(nodes.update(i, node)) == total_wins(nodes) + node.num_wins - nodes[i].num_wins,
    decreases nodes.len(),
{
    let after = nodes.update(i, node);
    if i == nodes.len() - 1 {
        assert(after.drop_last() == nodes.drop_last());
    } else {
        assert(after.drop_last() == nodes.drop_last().update(i, node));
        lemma_total_update(nodes.drop_last(), i, node);
    }
}

/// Whether sente moves after so many moves.
pub open spec fn sente_at(depth: usize) -> bool {
    depth % 2 == 0
}

/// Whether `rounds` iterations from a node of one game can make `root`.
pub open spec fn grown<'a, S: MctsState, F: Fn(u32, u32, u32) -> Finite>(
    state: S,
    rounds: nat,
    root: MctsNode<'a, S>,
    sente: bool,
    score: F,
) -> bool
    decreases rounds,
{
    if rounds == 0 {
        root.fresh(state)
    } else {
        exists|before: MctsNode<'a, S>, back: MctsBackprop|
            grown(state, (rounds - 1) as nat, before, sente, score) && #[trigger] before.iterated(
                root,
                back,
                sente,
                score,
            )
    }
}

/// How a search stands.
pub struct MctsStats<S> {
    pub num_wins: u32,
    pub num_sims: u32,
    pub min_depth: usize,
    pub max_depth: usize,
    pub allocated_bytes: usize,
    pub best_state: S,
    pub best_state_leaf: S,
}

/// Looks at a search from time to time and says when to stop.
pub trait MctsMonitor<S>: Sized {
    /// Whether the monitor can be asked.
    open spec fn listens(&self) -> bool {
        true
    }

    /// Whether the monitor, shown how a search stands, can stop it or let it go on, and be `after`
    /// then.
    open spec fn answers(&self, stats: &MctsStats<S>, stop: bool, after: Self) -> bool {
        true
    }

    fn defer(&mut self, stats: &MctsStats<S>) -> (flow: ControlFlow<()>)
        requires
            old(self).listens(),
        ensures
            final(self).listens(),
            old(self).answers(stats, flow is Break, *final(self)),
    ;
}

impl<S, F: Fn(&MctsStats<S>) -> ControlFlow<()>> MctsMonitor<S> for F {
    open spec fn listens(&self) -> bool {
        forall|stats: &MctsStats<S>| call_requires(*self, (stats,))
    }

    open spec fn answers(&self, stats: &MctsStats<S>, stop: bool, after: Self) -> bool {
        &&& after == *self
        &&& exists|flow: ControlFlow<()>| #[trigger]
            call_ensures(*self, (stats,), flow) && (flow is Break) == stop
    }

    fn defer(&mut self, stats: &MctsStats<S>) -> (flow: ControlFlow<()>)
        ensures
            call_ensures(*old(self), (stats,), flow),
            *final(self) == *old(self),
    {
        self(stats)
    }
}

/// A function that can be called is a monitor that can be asked, and answers what it returns.
pub proof fn a_function_monitors<S, F: Fn(&MctsStats<S>) -> ControlFlow<()>>(f: F)
    requires
        forall|stats: &MctsStats<S>| call_requires(f, (stats,)),
    ensures
        MctsMonitor::<S>::listens(&f),
        forall|stats: &MctsStats<S>, stop: bool, after: F| #[trigger]
            MctsMonitor::<S>::answers(&f, stats, stop, after) ==> after == f && exists|
                flow: ControlFlow<()>,
            | #[trigger]
                call_ensures(f, (stats,), flow) && (flow is Break) == stop,
{
}

/// Whether the monitor, shown how the search stands for the `i`-th time, can let it go on, or stop
/// it if that was the last time.
pub open spec fn heard<S, M: MctsMonitor<S>>(
    monitors: Seq<M>,
    shown: Seq<MctsStats<S>>,
    stopped: bool,
    i: int,
) -> bool {
    monitors[i].answers(&shown[i], stopped && i == shown.len() - 1, monitors[i + 1])
}

/// Whether a monitor can go through these stages when it is shown a search again and again: it lets
/// the search go on, unless it is the last time and the monitor stopped it.
pub open spec fn consulted<S, M: MctsMonitor<S>>(
    monitors: Seq<M>,
    shown: Seq<MctsStats<S>>,
    stopped: bool,
) -> bool {
    &&& monitors.len() == shown.len() + 1
    &&& stopped ==> shown.len() > 0
    &&& forall|i: int|
        0 <= i < shown.len() ==> #[trigger] heard(monitors, shown, stopped, i)
}

/// Whether `rounds` iterations, one at least, can make `root`.
pub open spec fn grown_to<'a, S: MctsState, F: Fn(u32, u32, u32) -> Finite>(
    state: S,
    rounds: nat,
    root: MctsNode<'a, S>,
    sente: bool,
    score: F,
) -> bool {
    rounds > 0 && grown(state, rounds, root, sente, score)
}

/// Whether `rounds` iterations can lead from one tree to another, the least and the greatest depth
/// that they have reached being these.
pub open spec fn reached<'a, S: MctsState, F: Fn(u32, u32, u32) -> Finite>(
    first: MctsNode<'a, S>,
    rounds: nat,
    root: MctsNode<'a, S>,
    sente: bool,
    score: F,
    depths: (usize, usize),
) -> bool
    decreases rounds,
{
    if rounds == 0 {
        root == first && depths == (usize::MAX, 0usize)
    } else {
        exists|before: MctsNode<'a, S>, back: MctsBackprop, reached_before: (usize, usize)|
            {
                &&& reached(first, (rounds - 1) as nat, before, sente, score, reached_before)
                &&& #[trigger] before.iterated(root, back, sente, score)
                &&& #[trigger] widened(reached_before, back.depth) == depths
            }
    }
}

/// The least and the greatest depth, with one more.
pub open spec fn widened(depths: (usize, usize), depth: usize) -> (usize, usize) {
    (
        if depth < depths.0 {
            depth
        } else {
            depths.0
        },
        if depth > depths.1 {
            depth
        } else {
            depths.1
        },
    )
}

/// Whether a search can stand like this after some hundreds of iterations, of which the last
/// hundreds have reached these depths.
pub open spec fn can_stand<S: MctsState, F: Fn(u32, u32, u32) -> Finite>(
    state: S,
    stats: MctsStats<S>,
    sente: bool,
    score: F,
) -> bool {
    exists|rounds: nat, root: MctsNode<'_, S>, since: nat, first: MctsNode<'_, S>|
        {
            &&& #[trigger] grown_to(state, rounds, root, sente, score)
            &&& rounds % 100 == 0
            &&& root.stands(stats)
            &&& #[trigger] went_on(state, rounds, root, since, first, sente, score)
            &&& reached(first, since, root, sente, score, (stats.min_depth, stats.max_depth))
        }
}

/// Whether the last `since` of the iterations, some hundreds of them, can have begun at `first`.
pub open spec fn went_on<'a, S: MctsState, F: Fn(u32, u32, u32) -> Finite>(
    state: S,
    rounds: nat,
    root: MctsNode<'a, S>,
    since: nat,
    first: MctsNode<'a, S>,
    sente: bool,
    score: F,
) -> bool {
    &&& 0 < since <= rounds
    &&& since % 100 == 0
    &&& grown(state, (rounds - since) as nat, first, sente, score)
}

/// Whether a search with `root` at its top can have shown a monitor this, and end with `best`. The
/// monitor stops the search at the last thing that it is shown, and that was how the search stands
/// in the end; only a search that has no room for another iteration ends by itself.
pub open spec fn ended<'a, S: MctsState, M: MctsMonitor<S>, F: Fn(u32, u32, u32) -> Finite>(
    state: S,
    root: MctsNode<'a, S>,
    sente: bool,
    score: F,
    monitors: Seq<M>,
    shown: Seq<MctsStats<S>>,
    best: S,
) -> bool {
    &&& consulted(monitors, shown, !root.full())
    &&& forall|i: int|
        0 <= i < shown.len() ==> can_stand(state, #[trigger] shown[i], sente, score)
    &&& !root.full() ==> root.stands(shown.last()) && shown.last().best_state == best
    &&& root.picks(best)
}

/// Whether a search from `state` can end with `best`, and with the monitor `before` being `after`
/// then.
pub open spec fn searched<S: MctsState, M: MctsMonitor<S>, F: Fn(u32, u32, u32) -> Finite>(
    state: S,
    depth: usize,
    score: F,
    before: M,
    after: M,
    best: S,
) -> bool {
    exists|rounds: nat, root: MctsNode<'_, S>, monitors: Seq<M>, shown: Seq<MctsStats<S>>|
        {
            &&& #[trigger] grown_to(state, rounds, root, sente_at(depth), score)
            &&& #[trigger] ended(state, root, sente_at(depth), score, monitors, shown, best)
            &&& monitors.first() == before
            &&& monitors.last() == after
        }
}

/// Search from `state` until the monitor breaks, and return the state that the most visited move
/// leads to. `depth` is the number of moves made so far: sente moves where it is even.
///
/// The monitor is asked after every hundred iterations, once a tenth of a second has passed since
/// it was asked last. The search also ends when its 32-bit counts have no room for another
/// iteration.
pub fn search<S: MctsState, M: MctsMonitor<S>, F: Fn(u32, u32, u32) -> Finite>(
    state: S,
    depth: usize,
    score: &F,
    monitor: &mut M,
) -> (best: S)
    requires
        state.valid(),
        state.outcome() is None,
        S::move_limit() < u32::MAX,
        scorable(*score),
        old(monitor).listens(),
    ensures
        state.successors().contains(best),
        searched(state, depth, *score, *old(monitor), *final(monitor), best),
{
    let arena = new_arena();
    let mut root = MctsNode::new(state);
    let mut last_defer = now();
    let mut min_depth: usize = usize::MAX;
    let mut max_depth: usize = 0;
    let sente = depth % 2 == 0;
    let limit: usize = S::max_move_count();
    let step: u32 = if limit > 100 {
        limit as u32
    } else {
        100
    };
    let mut running = true;
    let ghost mut rounds: nat = 0;
    let ghost mut monitors: Seq<M> = seq![*monitor];
    let ghost mut shown: Seq<MctsStats<S>> = Seq::empty();
    let ghost mut first = root;
    let ghost mut since: nat = 0;
    while running
        invariant
            sente == sente_at(depth),
            grown(state, rounds, root, sente, *score),
            !running ==> rounds > 0,
            running ==> rounds % 100 == 0 && since % 100 == 0,
            since <= rounds,
            grown(state, (rounds - since) as nat, first, sente, *score),
            reached(first, since, root, sente, *score, (min_depth, max_depth)),
            root.ok(),
            root.state == state,
            root.terminal is None,
            running ==> !root.full(),
            monitor.listens(),
            monitors.first() == *old(monitor),
            monitors.last() == *monitor,
            consulted(monitors, shown, !running && !root.full()),
            forall|i: int|
                0 <= i < shown.len() ==> can_stand(state, #[trigger] shown[i], sente, *score),
            !running && !root.full() ==> root.stands(shown.last()),
            !running ==> root.children is Some,
            S::move_limit() < u32::MAX,
            step == if S::move_limit() > 100 {
                S::move_limit()
            } else {
                100
            },
            scorable(*score),
        decreases u32::MAX - root.num_sims,
    {
        let ghost before = root.num_sims;
        let ghost start = rounds;
        let ghost since_start = since;
        let mut i: u32 = 0;
        while i < 100 && root.num_sims <= u32::MAX - step
            invariant
                grown(state, rounds, root, sente, *score),
                rounds == start + i,
                since == since_start + i,
                since <= rounds,
                grown(state, (rounds - since) as nat, first, sente, *score),
                reached(first, since, root, sente, *score, (min_depth, max_depth)),
                i <= 100,
                root.ok(),
                root.state == state,
                root.terminal is None,
                root.num_sims >= before,
                i == 0 ==> !root.full(),
                i > 0 ==> root.children is Some && root.num_sims > before,
                S::move_limit() < u32::MAX,
                step == if S::move_limit() > 100 {
                    S::move_limit()
                } else {
                    100
                },
                scorable(*score),
            decreases 100 - i,
        {
            let ghost tree = root;
            let back = root.iter(&arena, sente, score);
            let ghost depths = (min_depth, max_depth);
            proof {
                assert(tree.iterated(root, back, sente, *score));
                rounds = rounds + 1;
                since = since + 1;
            }
            if back.depth < min_depth {
                min_depth = back.depth;
            }
            if back.depth > max_depth {
                max_depth = back.depth;
            }
            assert(widened(depths, back.depth) == (min_depth, max_depth));
            i = i + 1;
        }
        if root.num_sims > u32::MAX - step {
            running = false;
        } else if millis_since(&last_defer) > 100 {
            let stats = root.stats(&arena, min_depth, max_depth);
            let flow = monitor.defer(&stats);
            proof {
                assert(grown_to(state, rounds, root, sente, *score));
                assert(went_on(state, rounds, root, since, first, sente, *score));
                assert(can_stand(state, stats, sente, *score));
                lemma_consulted(monitors, shown, stats, *monitor, flow is Break);
                monitors = monitors.push(*monitor);
                shown = shown.push(stats);
            }
            match flow {
                ControlFlow::Continue(_) => {},
                ControlFlow::Break(_) => {
                    running = false;
                },
            }
            last_defer = now();
            min_depth = usize::MAX;
            max_depth = 0;
            proof {
                first = root;
                since = 0;
            }
        }
    }
    let best = root.best();
    proof {
        let i = choose|i: int|
            is_last_max(sims_of(root.below()), i) && best == #[trigger] root.below()[i].state;
        assert(best == state.successors()[i]);
        if !root.full() {
            let shown_best = shown.last().best_state;
            let j = choose|j: int|
                is_last_max(sims_of(root.below()), j) && shown_best
                    == #[trigger] root.below()[j].state;
            last_max_is_unique(sims_of(root.below()), i, j);
        }
        assert(grown_to(state, rounds, root, sente, *score));
        assert(ended(state, root, sente, *score, monitors, shown, best));
    }
    best
}

/// A monitor is shown a search once more.
proof fn lemma_consulted<S, M: MctsMonitor<S>>(
    monitors: Seq<M>,
    shown: Seq<MctsStats<S>>,
    stats: MctsStats<S>,
    after: M,
    stop: bool,
)
    requires
        consulted(monitors, shown, false),
        monitors.last().answers(&stats, stop, after),
    ensures
        consulted(monitors.push(after), shown.push(stats), stop),
{
    let more = shown.push(stats);
    let stages = monitors.push(after);
    assert forall|i: int| 0 <= i < more.len() implies #[trigger] heard(stages, more, stop, i) by {
        if i < shown.len() {
            assert(heard(monitors, shown, false, i));
        }
    }
}

} // verus!
