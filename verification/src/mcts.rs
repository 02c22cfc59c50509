//! Monte Carlo tree search that keeps the whole tree.

use std::time::Instant;

use vstd::prelude::*;
use vstd::string::*;
use crate::clock::{nanos_since, now};
use crate::text::{decimal, decimal_text, push_right, right_aligned};
use crate::util::{argmax, as_ints, is_last_max, Finite};

verus! {

/// A game state that can be searched. "Sente" is the player who moves first.
pub trait MctsState: Sized {
    /// Whether the state is one that the game can reach.
    open spec fn valid(&self) -> bool {
        true
    }

    /// `Some(true)` where sente has won, `Some(false)` where gote has.
    open spec fn outcome(&self) -> Option<bool> {
        None
    }

    /// The moves and the states they lead to.
    open spec fn successors(&self) -> Seq<(usize, Self)> {
        Seq::empty()
    }

    /// Whether a random game from here can end with this winner.
    open spec fn may_end(&self, sente_win: bool) -> bool {
        true
    }

    /// How many moves a state has at most.
    open spec fn move_limit() -> nat {
        0
    }

    fn init() -> (state: Self)
        ensures
            state.valid(),
            state.outcome() is None,
    ;

    fn max_move_count() -> (count: usize)
        ensures
            count == Self::move_limit(),
    ;

    /// Return Some(true) for sente win, Some(false) for gote win, and None for
    /// intermediate game states.
    fn terminal(&self) -> (winner: Option<bool>)
        ensures
            winner == self.outcome(),
    ;

    /// Return true for sente win and false for gote win.
    fn rollout(&self) -> (sente_win: bool)
        ensures
            self.may_end(sente_win),
    ;

    fn children(&self) -> (children: Vec<(usize, Self)>)
        requires
            self.valid(),
        ensures
            children@ == self.successors(),
            children@.len() <= Self::move_limit(),
            forall|i: int| 0 <= i < children@.len() ==> (#[trigger] children@[i]).1.valid(),
            self.outcome() is None ==> children@.len() > 0,
    ;
}

/// What lies below a node.
pub enum MctsChildren<S> {
    Unknown,
    Leaf(bool),
    List(Vec<MctsNode<S>>),
}

/// A state with the results of the games that were played through it.
pub struct MctsNode<S> {
    pub state: S,
    pub sente_wins: usize,
    pub rollouts: usize,
    pub children: MctsChildren<S>,
}

/// How many games went through the nodes.
pub open spec fn total_rollouts<S>(nodes: Seq<MctsNode<S>>) -> nat
    decreases nodes.len(),
{
    if nodes.len() == 0 {
        0
    } else {
        total_rollouts(nodes.drop_last()) + nodes.last().rollouts as nat
    }
}

/// How many of those games sente won.
pub open spec fn total_wins<S>(nodes: Seq<MctsNode<S>>) -> nat
    decreases nodes.len(),
{
    if nodes.len() == 0 {
        0
    } else {
        total_wins(nodes.drop_last()) + nodes.last().sente_wins as nat
    }
}

/// The ranks of the scores.
pub open spec fn ranks(scores: Seq<Finite>) -> Seq<int> {
    Seq::new(scores.len(), |i: int| scores[i].rank())
}

/// Whether `scores` are what `score` makes of the nodes, for the player to move.
pub open spec fn scored<S, F: Fn(usize, usize, usize) -> Finite>(
    nodes: Seq<MctsNode<S>>,
    sente: bool,
    total: usize,
    score: F,
    scores: Seq<Finite>,
) -> bool {
    &&& scores.len() == nodes.len()
    &&& forall|i: int|
        0 <= i < nodes.len() ==> call_ensures(
            score,
            (nodes[i].wins_for(sente), nodes[i].rollouts, total),
            #[trigger] scores[i],
        )
}

/// Whether node `i` is the last of those with the best score.
pub open spec fn selected<S, F: Fn(usize, usize, usize) -> Finite>(
    nodes: Seq<MctsNode<S>>,
    sente: bool,
    total: usize,
    score: F,
    i: int,
) -> bool {
    exists|scores: Seq<Finite>|
        #[trigger] scored(nodes, sente, total, score, scores) && is_last_max(ranks(scores), i)
}

/// Whether `score` can be asked for any number of wins among some games.
pub open spec fn scorable<F: Fn(usize, usize, usize) -> Finite>(score: F) -> bool {
    forall|wins: usize, rollouts: usize, total: usize|
        wins <= rollouts && 0 < rollouts && 0 < total ==> call_requires(
            score,
            (wins, rollouts, total),
        )
}

impl<S> MctsNode<S> {
    /// How many of the games the given player won.
    pub open spec fn wins_for(self, sente: bool) -> usize {
        if sente {
            self.sente_wins
        } else {
            (self.rollouts - self.sente_wins) as usize
        }
    }
}

impl<S: MctsState> MctsNode<S> {
    /// Whether the node and all below it are what the games played make them.
    pub open spec fn ok(self) -> bool
        decreases self,
    {
        &&& self.state.valid()
        &&& self.rollouts >= 1
        &&& self.sente_wins <= self.rollouts
        &&& match self.children {
            MctsChildren::Unknown => self.state.outcome() is None && self.rollouts == 1,
            MctsChildren::Leaf(sente_win) => {
                &&& self.state.outcome() == Some(sente_win)
                &&& self.sente_wins == if sente_win {
                    self.rollouts as int
                } else {
                    0
                }
            },
            MctsChildren::List(nodes) => {
                &&& self.state.outcome() is None
                &&& nodes@.len() == self.state.successors().len()
                &&& nodes@.len() > 0
                &&& self.rollouts == total_rollouts(nodes@)
                &&& self.sente_wins == total_wins(nodes@)
                &&& forall|i: int|
                    0 <= i < nodes@.len() ==> (#[trigger] nodes@[i]).ok() && nodes@[i].state
                        == self.state.successors()[i].1
            },
        }
    }

    /// Whether this is a node of one game: the decided one, or a random one.
    pub open spec fn fresh(self, state: S) -> bool {
        &&& self.state == state
        &&& self.rollouts == 1
        &&& match state.outcome() {
            Some(sente_win) => self.children == MctsChildren::<S>::Leaf(sente_win)
                && self.sente_wins == (if sente_win {
                1int
            } else {
                0
            }),
            None => self.children is Unknown && (self.sente_wins == 1 && state.may_end(true)
                || self.sente_wins == 0 && state.may_end(false)),
        }
    }

    /// Whether one more iteration can make this node `after`.
    ///
    /// A decided node counts its result again. A node without children gets all of them. Any other
    /// node passes the iteration on to the child with the best score. What a node has counted is
    /// what its children have.
    pub open spec fn iterated<F: Fn(usize, usize, usize) -> Finite>(
        self,
        after: MctsNode<S>,
        sente: bool,
        score: F,
    ) -> bool
        decreases self,
    {
        &&& after.state == self.state
        &&& match self.children {
            MctsChildren::Leaf(sente_win) => {
                &&& after.children == self.children
                &&& after.rollouts == self.rollouts + 1
                &&& after.sente_wins == self.sente_wins + if sente_win {
                    1int
                } else {
                    0
                }
            },
            MctsChildren::Unknown => {
                &&& after.children matches MctsChildren::List(nodes)
                &&& nodes@.len() == self.state.successors().len()
                &&& forall|i: int|
                    0 <= i < nodes@.len() ==> (#[trigger] nodes@[i]).fresh(
                        self.state.successors()[i].1,
                    )
                &&& after.rollouts == total_rollouts(nodes@)
                &&& after.sente_wins == total_wins(nodes@)
            },
            MctsChildren::List(before) => {
                &&& after.children matches MctsChildren::List(nodes)
                &&& nodes@.len() == before@.len()
                &&& exists|i: int|
                    #![trigger nodes@[i]]
                    {
                        &&& 0 <= i < before@.len()
                        &&& selected(before@, sente, self.rollouts, score, i)
                        &&& before@[i].iterated(nodes@[i], !sente, score)
                        &&& nodes@ == before@.update(i, nodes@[i])
                    }
                &&& after.rollouts == total_rollouts(nodes@)
                &&& after.sente_wins == total_wins(nodes@)
            },
        }
    }

    /// Whether in this node and in all below it sente has won no more games than were played.
    pub open spec fn counts_fit(self) -> bool
        decreases self,
    {
        &&& self.sente_wins <= self.rollouts
        &&& self.children matches MctsChildren::List(nodes) ==> forall|i: int|
            0 <= i < nodes@.len() ==> (#[trigger] nodes@[i]).counts_fit()
    }

    /// A node of one game.
    fn new(state: S) -> (node: MctsNode<S>)
        requires
            state.valid(),
        ensures
            node.fresh(state),
            node.ok(),
    {
        if let Some(sente_win) = state.terminal() {
            MctsNode {
                state,
                sente_wins: if sente_win {
                    1
                } else {
                    0
                },
                rollouts: 1,
                children: MctsChildren::Leaf(sente_win),
            }
        } else {
            let sente_win = state.rollout();
            MctsNode {
                state,
                sente_wins: if sente_win {
                    1
                } else {
                    0
                },
                rollouts: 1,
                children: MctsChildren::Unknown,
            }
        }
    }

    /// The place of the last child with the best score.
    fn select<F: Fn(usize, usize, usize) -> Finite>(
        nodes: &Vec<MctsNode<S>>,
        sente: bool,
        total: usize,
        score: &F,
    ) -> (place: usize)
        requires
            nodes@.len() > 0,
            total > 0,
            scorable(*score),
            forall|i: int| 0 <= i < nodes@.len() ==> (#[trigger] nodes@[i]).ok(),
        ensures
            0 <= place < nodes@.len(),
            selected(nodes@, sente, total, *score, place as int),
    {
        let mut keys: Vec<i64> = Vec::new();
        let ghost mut scores: Seq<Finite> = Seq::empty();
        let mut i: usize = 0;
        while i < nodes.len()
            invariant
                i <= nodes@.len(),
                total > 0,
                scorable(*score),
                forall|j: int| 0 <= j < nodes@.len() ==> (#[trigger] nodes@[j]).ok(),
                keys@.len() == i,
                scores.len() == i,
                forall|j: int| 0 <= j < i ==> #[trigger] keys@[j] == scores[j].rank(),
                forall|j: int|
                    0 <= j < i ==> call_ensures(
                        *score,
                        (nodes@[j].wins_for(sente), nodes@[j].rollouts, total),
                        #[trigger] scores[j],
                    ),
            decreases nodes@.len() - i,
        {
            let node = &nodes[i];
            assert(nodes@[i as int].ok());
            let wins: usize = if sente {
                node.sente_wins
            } else {
                node.rollouts - node.sente_wins
            };
            let x = score(wins, node.rollouts, total);
            keys.push(x.order());
            proof {
                scores = scores.push(x);
            }
            i = i + 1;
        }
        assert(as_ints(keys@) =~= ranks(scores));
        match argmax(&keys) {
            Some(place) => {
                assert(scored(nodes@, sente, total, *score, scores));
                place
            },
            None => 0,
        }
    }

    /// The totals over the nodes.
    fn totals(nodes: &Vec<MctsNode<S>>) -> (totals: (usize, usize))
        requires
            total_rollouts(nodes@) <= usize::MAX,
            forall|i: int| 0 <= i < nodes@.len() ==> (#[trigger] nodes@[i]).ok(),
        ensures
            totals.0 == total_wins(nodes@),
            totals.1 == total_rollouts(nodes@),
            totals.0 <= totals.1,
    {
        let mut sente_wins: usize = 0;
        let mut rollouts: usize = 0;
        let mut i: usize = 0;
        assert(nodes@.take(0) == Seq::<MctsNode<S>>::empty());
        while i < nodes.len()
            invariant
                i <= nodes@.len(),
                total_rollouts(nodes@) <= usize::MAX,
                forall|j: int| 0 <= j < nodes@.len() ==> (#[trigger] nodes@[j]).ok(),
                sente_wins == total_wins(nodes@.take(i as int)),
                rollouts == total_rollouts(nodes@.take(i as int)),
                sente_wins <= rollouts,
            decreases nodes@.len() - i,
        {
            proof {
                assert(nodes@.take(i + 1).drop_last() == nodes@.take(i as int));
                assert(nodes@[i as int].ok());
                lemma_total_grows(nodes@, i + 1);
            }
            sente_wins = sente_wins + nodes[i].sente_wins;
            rollouts = rollouts + nodes[i].rollouts;
            i = i + 1;
        }
        assert(nodes@.take(i as int) == nodes@);
        (sente_wins, rollouts)
    }

    /// One more iteration: descend by the best score and grow the tree where it ends.
    fn iter<F: Fn(usize, usize, usize) -> Finite>(&mut self, sente: bool, score: &F)
        requires
            old(self).ok(),
            old(self).rollouts < usize::MAX,
            old(self).rollouts + S::move_limit() <= usize::MAX,
            scorable(*score),
        ensures
            old(self).iterated(*final(self), sente, *score),
            final(self).ok(),
            final(self).rollouts >= old(self).rollouts,
            final(self).rollouts <= old(self).rollouts + 1 || final(self).rollouts <= old(
                self,
            ).rollouts + S::move_limit(),
            !(final(self).children is Unknown),
        decreases *old(self),
    {
        match &mut self.children {
            MctsChildren::Unknown => {
                let states = self.state.children();
                let mut nodes: Vec<MctsNode<S>> = Vec::new();
                let ghost all = states@;
                for child in it: states
                    invariant
                        it.seq() == all,
                        nodes@.len() == it.index(),
                        all.len() <= S::move_limit(),
                        forall|i: int| 0 <= i < all.len() ==> (#[trigger] all[i]).1.valid(),
                        forall|i: int|
                            0 <= i < nodes@.len() ==> (#[trigger] nodes@[i]).fresh(all[i].1)
                                && nodes@[i].ok(),
                        total_rollouts(nodes@) == nodes@.len(),
                {
                    let ghost before = nodes@;
                    nodes.push(MctsNode::new(child.1));
                    assert(nodes@.drop_last() == before);
                }
                let (sente_wins, rollouts) = Self::totals(&nodes);
                self.sente_wins = sente_wins;
                self.rollouts = rollouts;
                self.children = MctsChildren::List(nodes);
            },
            MctsChildren::Leaf(sente_win) => {
                if *sente_win {
                    self.sente_wins = self.sente_wins + 1;
                }
                self.rollouts = self.rollouts + 1;
            },
            MctsChildren::List(nodes) => {
                let ghost before = nodes@;
                let place: usize = Self::select(nodes, sente, self.rollouts, score);
                proof {
                    lemma_total_at(nodes@, place as int);
                }
                nodes[place].iter(!sente, score);
                proof {
                    assert(nodes@ =~= before.update(place as int, nodes@[place as int]));
                    lemma_total_update(before, place as int, nodes@[place as int]);
                }
                let (sente_wins, rollouts) = Self::totals(nodes);
                self.sente_wins = sente_wins;
                self.rollouts = rollouts;
            },
        }
    }

    /// The child with the best score, or the node itself where the game is over.
    fn into_best<F: Fn(usize, usize, usize) -> Finite>(self, sente: bool, score: &F) -> (best:
        Result<Self, Self>)
        requires
            self.ok(),
            !(self.children is Unknown),
            scorable(*score),
        ensures
            best is Err <==> self.children is Leaf,
            best matches Err(node) ==> node == self,
            best matches Ok(node) ==> {
                &&& node.ok()
                &&& self.children matches MctsChildren::List(nodes)
                &&& exists|i: int|
                    0 <= i < nodes@.len() && node == #[trigger] nodes@[i] && selected(
                        nodes@,
                        sente,
                        self.rollouts,
                        *score,
                        i,
                    )
            },
    {
        let MctsNode { state, sente_wins, rollouts, children } = self;
        match children {
            MctsChildren::Unknown => Err(
                MctsNode { state, sente_wins, rollouts, children: MctsChildren::Unknown },
            ),
            MctsChildren::Leaf(sente_win) => Err(
                MctsNode { state, sente_wins, rollouts, children: MctsChildren::Leaf(sente_win) },
            ),
            MctsChildren::List(nodes) => {
                let mut nodes = nodes;
                let place: usize = Self::select(&nodes, sente, rollouts, score);
                Ok(nodes.remove(place))
            },
        }
    }
}

/// An iteration leaves the state alone. A decided node counts its result once more. Any other node
/// has children then, of which one at most has changed, and has counted what they have. Nowhere has
/// sente won more games than were played.
pub proof fn an_iteration_changes_one_line<S: MctsState, F: Fn(usize, usize, usize) -> Finite>(
    before: MctsNode<S>,
    after: MctsNode<S>,
    sente: bool,
    score: F,
)
    requires
        before.counts_fit(),
        before.iterated(after, sente, score),
    ensures
        after.state == before.state,
        after.counts_fit(),
        match before.children {
            MctsChildren::Leaf(sente_win) => {
                &&& after.children == before.children
                &&& after.rollouts == before.rollouts + 1
                &&& after.sente_wins == before.sente_wins + if sente_win {
                    1int
                } else {
                    0
                }
            },
            _ => {
                &&& after.children matches MctsChildren::List(nodes)
                &&& after.rollouts == total_rollouts(nodes@)
                &&& after.sente_wins == total_wins(nodes@)
                &&& before.children matches MctsChildren::List(old_nodes) ==> {
                    &&& nodes@.len() == old_nodes@.len()
                    &&& exists|i: int|
                        0 <= i < nodes@.len() && nodes@ == old_nodes@.update(
                            i,
                            #[trigger] nodes@[i],
                        )
                }
            },
        },
    decreases before,
{
    match (before.children, after.children) {
        (MctsChildren::Unknown, MctsChildren::List(nodes)) => {
            assert forall|i: int| 0 <= i < nodes@.len() implies (
            #[trigger] nodes@[i]).counts_fit() by {
                assert(nodes@[i].fresh(before.state.successors()[i].1));
            }
            lemma_wins_fit(nodes@);
        },
        (MctsChildren::List(old_nodes), MctsChildren::List(nodes)) => {
            let i = choose|i: int|
                #![trigger nodes@[i]]
                {
                    &&& 0 <= i < old_nodes@.len()
                    &&& selected(old_nodes@, sente, before.rollouts, score, i)
                    &&& old_nodes@[i].iterated(nodes@[i], !sente, score)
                    &&& nodes@ == old_nodes@.update(i, nodes@[i])
                };
            assert(old_nodes@[i].counts_fit());
            an_iteration_changes_one_line(old_nodes@[i], nodes@[i], !sente, score);
            assert forall|j: int| 0 <= j < nodes@.len() implies (
            #[trigger] nodes@[j]).counts_fit() by {
                if j != i {
                    assert(nodes@[j] == old_nodes@[j]);
                }
            }
            lemma_wins_fit(nodes@);
        },
        _ => {},
    }
}

/// Sente has won no more games than were played, over several nodes.
proof fn lemma_wins_fit<S: MctsState>(nodes: Seq<MctsNode<S>>)
    requires
        forall|i: int| 0 <= i < nodes.len() ==> (#[trigger] nodes[i]).counts_fit(),
    ensures
        total_wins(nodes) <= total_rollouts(nodes),
    decreases nodes.len(),
{
    if nodes.len() > 0 {
        let less = nodes.drop_last();
        assert forall|i: int| 0 <= i < less.len() implies (#[trigger] less[i]).counts_fit() by {
            assert(nodes[i].counts_fit());
        }
        lemma_wins_fit(less);
        assert(nodes[nodes.len() - 1].counts_fit());
    }
}

proof fn lemma_total_grows<S>(nodes: Seq<MctsNode<S>>, n: int)
    requires
        0 <= n <= nodes.len(),
    ensures
        total_rollouts(nodes.take(n)) <= total_rollouts(nodes),
    decreases nodes.len() - n,
{
    if n < nodes.len() {
        lemma_total_grows(nodes, n + 1);
        assert(nodes.take(n + 1).drop_last() == nodes.take(n));
    } else {
        assert(nodes.take(n) == nodes);
    }
}

proof fn lemma_total_at<S>(nodes: Seq<MctsNode<S>>, i: int)
    requires
        0 <= i < nodes.len(),
    ensures
        nodes[i].rollouts <= total_rollouts(nodes),
{
    lemma_total_grows(nodes, i + 1);
    assert(nodes.take(i + 1).drop_last() == nodes.take(i));
}

proof fn lemma_total_update<S>(nodes: Seq<MctsNode<S>>, i: int, node: MctsNode<S>)
    requires
        0 <= i < nodes.len(),
    ensures
        total_rollouts(nodes.update(i, node)) == total_rollouts(nodes) + node.rollouts
            - nodes[i].rollouts,
    decreases nodes.len(),
{
    let after = nodes.update(i, node);
    if i == nodes.len() - 1 {
        assert(after.drop_last() == nodes.drop_last());
    } else {
        assert(after.drop_last() == nodes.drop_last().update(i, node));
        lemma_total_update(nodes.drop_last(), i, node);
    }
}

/// A search tree over the moves of a game.
pub struct MctsTree<S> {
    pub root_depth: usize,
    pub root: MctsNode<S>,
}

impl<S: MctsState> MctsTree<S> {
    /// Whether the tree is what the games played make it.
    pub open spec fn ok(self) -> bool {
        self.root.ok()
    }

    /// Whether sente moves at the root.
    pub open spec fn sente(self) -> bool {
        self.root_depth as nat % 2 == 0
    }

    /// The tree of the first state, counted as one game that sente has not won.
    pub fn new() -> (tree: MctsTree<S>)
        ensures
            tree.ok(),
            tree.root_depth == 0,
            tree.root.sente_wins == 0,
            tree.root.rollouts == 1,
            tree.root.children is Unknown,
            call_ensures(S::init, (), tree.root.state),
    {
        MctsTree {
            root_depth: 0,
            root: MctsNode {
                state: S::init(),
                sente_wins: 0,
                rollouts: 1,
                children: MctsChildren::Unknown,
            },
        }
    }

    /// The state at the root.
    pub fn state(&self) -> (state: &S)
        ensures
            *state == self.root.state,
    {
        &self.root.state
    }

    /// How many games the tree has counted.
    pub fn size(&self) -> (size: usize)
        ensures
            size == self.root.rollouts,
    {
        self.root.rollouts
    }

    /// One more iteration. `score` rates a child by its wins, its games and those of its parent.
    pub fn iter<F: Fn(usize, usize, usize) -> Finite>(&mut self, score: &F)
        requires
            old(self).ok(),
            old(self).root.rollouts < usize::MAX,
            old(self).root.rollouts + S::move_limit() <= usize::MAX,
            scorable(*score),
        ensures
            final(self).ok(),
            final(self).root_depth == old(self).root_depth,
            old(self).root.iterated(final(self).root, old(self).sente(), *score),
            final(self).root.rollouts >= old(self).root.rollouts,
            !(final(self).root.children is Unknown),
    {
        let sente = self.root_depth % 2 == 0;
        self.root.iter(sente, score);
    }

    /// The tree below the best move, or the tree itself where the game is over.
    pub fn into_best<F: Fn(usize, usize, usize) -> Finite>(self, score: &F) -> (best: Result<
        Self,
        Self,
    >)
        requires
            self.ok(),
            !(self.root.children is Unknown),
            self.root_depth < usize::MAX,
            scorable(*score),
        ensures
            best is Err <==> self.root.children is Leaf,
            best matches Err(tree) ==> tree == self,
            best matches Ok(tree) ==> {
                &&& tree.ok()
                &&& tree.root_depth == self.root_depth + 1
                &&& self.root.children matches MctsChildren::List(nodes)
                &&& exists|i: int|
                    0 <= i < nodes@.len() && tree.root == #[trigger] nodes@[i] && selected(
                        nodes@,
                        self.sente(),
                        self.root.rollouts,
                        *score,
                        i,
                    )
            },
    {
        let sente = self.root_depth % 2 == 0;
        let root_depth: usize = self.root_depth;
        match self.root.into_best(sente, score) {
            Ok(root) => Ok(MctsTree { root_depth: root_depth + 1, root }),
            Err(root) => Err(MctsTree { root_depth, root }),
        }
    }
}

/// How a tree stands, on a line that is written over the one before: its depth, the games that sente
/// has won, all games, and the part that `rate` says this is.
pub open spec fn progress_line(depth: nat, wins: nat, rollouts: nat, rate: Seq<char>) -> Seq<char> {
    "\x1b[G"@ + right_aligned(decimal(depth), ' ', 5) + right_aligned(decimal(wins), ' ', 10)
        + "/"@ + right_aligned(decimal(rollouts), ' ', 10) + "  "@ + right_aligned(rate, ' ', 10)
}

/// Tells how a tree stands, five times a second at most.
pub struct Progress {
    last_print: Instant,
}

impl Progress {
    /// Whether the clock can say, when it is read, that so many nanoseconds have passed since this
    /// was last told.
    pub closed spec fn elapsed(self, nanos: u128) -> bool {
        call_ensures(nanos_since, (&self.last_print,), nanos)
    }

    /// Nothing has been told.
    pub fn new() -> Progress {
        Progress { last_print: now() }
    }

    /// Hand `show` a line on the tree, once a fifth of a second has passed since this was last done.
    pub fn tell<S, Q: Fn(usize, usize) -> String, W: Fn(&str)>(
        &mut self,
        tree: &MctsTree<S>,
        rate: &Q,
        show: &W,
    ) -> (told: bool)
        requires
            call_requires(*rate, (tree.root.sente_wins, tree.root.rollouts)),
            forall|line: &str| call_requires(*show, (line,)),
        ensures
            exists|nanos: u128| #[trigger]
                old(self).elapsed(nanos) && told == (nanos > 200_000_000),
            !told ==> *final(self) == *old(self),
            told ==> exists|part: String, line: &str|
                {
                    &&& #[trigger] call_ensures(
                        *rate,
                        (tree.root.sente_wins, tree.root.rollouts),
                        part,
                    )
                    &&& line@ == progress_line(
                        tree.root_depth as nat,
                        tree.root.sente_wins as nat,
                        tree.root.rollouts as nat,
                        part@,
                    )
                    &&& #[trigger] call_ensures(*show, (line,), ())
                },
    {
        let nanos: u128 = nanos_since(&self.last_print);
        assert(old(self).elapsed(nanos));
        if nanos <= 200_000_000 {
            return false;
        }
        self.last_print = now();
        let part = rate(tree.root.sente_wins, tree.root.rollouts);
        let mut text = String::new();
        text.append("\x1b[G");
        push_count(&mut text, tree.root_depth, 5);
        push_count(&mut text, tree.root.sente_wins, 10);
        text.append("/");
        push_count(&mut text, tree.root.rollouts, 10);
        text.append("  ");
        push_right(&mut text, part.as_str(), ' ', 10);
        let line = text.as_str();
        assert(line@ =~= progress_line(
            tree.root_depth as nat,
            tree.root.sente_wins as nat,
            tree.root.rollouts as nat,
            part@,
        ));
        show(line);
        true
    }
}

/// Append a count, to the right of a field.
fn push_count(out: &mut String, n: usize, width: usize)
    ensures
        final(out)@ == old(out)@ + right_aligned(decimal(n as nat), ' ', width as nat),
{
    let digits = decimal_text(n as u64);
    push_right(out, digits.as_str(), ' ', width);
}

} // verus!
