//! Tree search guided by an evaluator: a policy that says which moves to look at, and a value that
//! says who is ahead.

use std::ops::ControlFlow;

use vstd::prelude::*;
use crate::bb::Bitboard;
use crate::board_laws::{an_undecided_board_has_a_move, moves_are_the_empty_cells};
use crate::nn::constants::BOARD_SIZE;
use crate::util::{
    argmax, as_ints, cumsum, first_greater, is_last_max, place_of, F32, Finite,
};

pub use crate::nn::model::{EvalRequest, EvalResult};

verus! {

/// Evaluates boards.
pub trait Evaluator {
    /// One number for each cell, and a value.
    fn call(&self, board: Bitboard) -> (result: EvalResult)
        ensures
            result.policy@.len() == 121,
    ;
}

/// The computations on floating point numbers that a search makes.
pub trait Arithmetic {
    /// The sum of two numbers.
    fn sum(&self, a: F32, b: F32) -> F32;

    /// The quotient of two numbers.
    fn quotient(&self, a: F32, b: F32) -> F32;

    /// A count as a number.
    fn count(&self, n: usize) -> F32;

    /// What the policy of the legal moves is divided by: their sum, but not zero.
    fn denominator(&self, legal: &Vec<F32>) -> F32;

    /// The value of a move that has not been visited, from that of the node it is made at.
    fn first_play(&self, invert_value: bool, parent_value: F32) -> F32;

    /// How much a move deserves a visit.
    fn puct(
        &self,
        invert_value: bool,
        value: F32,
        prior: F32,
        visits: usize,
        total: usize,
    ) -> Finite;

    /// What is passed up of a value.
    fn decay(&self, value: F32, value_decay: F32) -> F32;

    /// Random numbers to be mixed into as many priors.
    fn noise(&self, n: usize) -> Vec<F32>;

    /// A prior with noise mixed in.
    fn mixed(&self, prior: F32, noise: F32, dirichlet: F32) -> F32;

    /// A random part of the total.
    fn threshold(&self, total: F32) -> F32;
}

/// What a search found: a move drawn by how often it was visited, the move visited most, and how
/// all moves stand.
pub struct Output {
    pub board_sample: Bitboard,
    pub board_best: Bitboard,
    pub policy: Vec<F32>,
    pub values: Vec<F32>,
    pub value_sample: F32,
    pub value_best: F32,
}

/// How far a search has come.
pub struct Stats {
    pub iters: usize,
}

/// Says when a search is to stop.
pub trait Monitor {
    /// Whether the monitor can be asked.
    open spec fn listens(&self) -> bool {
        true
    }

    fn defer(&self, stats: Stats) -> (flow: ControlFlow<()>)
        requires
            self.listens(),
    ;
}

impl<F: Fn(usize) -> bool> Monitor for F {
    open spec fn listens(&self) -> bool {
        forall|iters: usize| call_requires(*self, (iters,))
    }

    fn defer(&self, stats: Stats) -> (flow: ControlFlow<()>)
        ensures
            call_ensures(*self, (stats.iters,), flow is Continue),
    {
        match self(stats.iters) {
            true => ControlFlow::Continue(()),
            false => ControlFlow::Break(()),
        }
    }
}

/// A state of the game in the tree.
pub enum Node {
    Leaf,
    Terminal(F32),
    Edges(Vec<Edge>),
}

/// A move, with what visits to it have found.
pub struct Edge {
    pub action: usize,
    pub visits: usize,
    pub total_value: F32,
    pub mean_value: F32,
    pub prior: F32,
    pub child: Node,
}

/// The value of a decided game: one for sente, minus one for gote.
pub open spec fn decided_value(sente: bool) -> F32 {
    if sente {
        F32(0x3f80_0000)
    } else {
        F32(0xbf80_0000)
    }
}

/// How often the moves were visited.
pub open spec fn total_visits(edges: Seq<Edge>) -> nat
    decreases edges.len(),
{
    if edges.len() == 0 {
        0
    } else {
        total_visits(edges.drop_last()) + edges.last().visits as nat
    }
}

/// What a policy says of the legal moves.
pub open spec fn legal_policy(board: Bitboard, policy: Seq<F32>) -> Seq<F32> {
    Seq::new(board.moves_below(121).len(), |i: int| policy[board.moves_below(121)[i].0 as int])
}

/// Whether the edges are those of a board that has just been evaluated.
pub open spec fn fresh_edges<A: Arithmetic>(
    edges: Seq<Edge>,
    board: Bitboard,
    policy: Seq<F32>,
    arith: &A,
) -> bool {
    exists|legal: Vec<F32>, denominator: F32|
        {
            &&& legal@ == legal_policy(board, policy)
            &&& #[trigger] call_ensures(A::denominator, (arith, &legal), denominator)
            &&& edges.len() == board.moves_below(121).len()
            &&& forall|i: int|
                0 <= i < edges.len() ==> fresh_edge(
                    #[trigger] edges[i],
                    board.moves_below(121)[i].0,
                    policy,
                    denominator,
                    arith,
                )
        }
}

/// Whether the edge is that of a move that has not been visited.
pub open spec fn fresh_edge<A: Arithmetic>(
    edge: Edge,
    action: usize,
    policy: Seq<F32>,
    denominator: F32,
    arith: &A,
) -> bool {
    &&& edge.action == action
    &&& edge.visits == 0
    &&& edge.total_value == F32(0)
    &&& edge.mean_value == F32(0)
    &&& edge.child is Leaf
    &&& call_ensures(A::quotient, (arith, policy[action as int], denominator), edge.prior)
}

/// Whether `score` is what a move deserves.
pub open spec fn edge_score<A: Arithmetic>(
    edge: Edge,
    arith: &A,
    invert_value: bool,
    parent_value: F32,
    total: usize,
    score: Finite,
) -> bool {
    exists|value: F32|
        {
            &&& if edge.visits == 0 {
                call_ensures(A::first_play, (arith, invert_value, parent_value), value)
            } else {
                value == edge.mean_value
            }
            &&& #[trigger] call_ensures(
                A::puct,
                (arith, invert_value, value, edge.prior, edge.visits, total),
                score,
            )
        }
}

/// The ranks of the scores.
pub open spec fn ranks(scores: Seq<Finite>) -> Seq<int> {
    Seq::new(scores.len(), |i: int| scores[i].rank())
}

/// Whether `scores` are what the moves on `board` deserve.
pub open spec fn edge_scores<A: Arithmetic>(
    edges: Seq<Edge>,
    arith: &A,
    board: Bitboard,
    parent_value: F32,
    scores: Seq<Finite>,
) -> bool {
    &&& scores.len() == edges.len()
    &&& forall|i: int|
        0 <= i < edges.len() ==> edge_score(
            edges[i],
            arith,
            !board.black_next(),
            parent_value,
            total_visits(edges) as usize,
            #[trigger] scores[i],
        )
}

/// Whether move `i` on `board` is the last of those that deserve a visit most.
pub open spec fn selected<A: Arithmetic>(
    edges: Seq<Edge>,
    arith: &A,
    board: Bitboard,
    parent_value: F32,
    i: int,
) -> bool {
    exists|scores: Seq<Finite>|
        #[trigger] edge_scores(edges, arith, board, parent_value, scores) && is_last_max(
            ranks(scores),
            i,
        )
}

impl Edge {
    /// Whether a visit to the move, made on `board`, can make this edge `after` and pass `back` up.
    pub open spec fn stepped<E: Evaluator, A: Arithmetic>(
        self,
        after: Edge,
        eval: &E,
        arith: &A,
        value_decay: F32,
        board: Bitboard,
        back: F32,
    ) -> bool
        decreases self,
    {
        &&& after.action == self.action
        &&& after.prior == self.prior
        &&& after.visits == self.visits + 1
        &&& exists|value: F32|
            {
                &&& self.child.stepped(
                    after.child,
                    eval,
                    arith,
                    value_decay,
                    board.played(self.action as int),
                    self.mean_value,
                    value,
                )
                &&& call_ensures(A::sum, (arith, self.total_value, value), after.total_value)
                &&& mean_of(arith, after.total_value, after.visits, after.mean_value)
                &&& #[trigger] call_ensures(A::decay, (arith, value, value_decay), back)
            }
    }
}

/// Whether `mean` is the total divided by the number of visits.
pub open spec fn mean_of<A: Arithmetic>(arith: &A, total: F32, visits: usize, mean: F32) -> bool {
    exists|n: F32|
        #[trigger] call_ensures(A::count, (arith, visits), n) && call_ensures(
            A::quotient,
            (arith, total, n),
            mean,
        )
}

impl Node {
    /// Whether the tree below is that of `board` after `visits` visits.
    pub open spec fn ok(self, board: Bitboard, visits: nat) -> bool
        decreases self,
    {
        match self {
            Node::Leaf => visits == 0,
            Node::Terminal(value) => {
                &&& visits >= 1
                &&& board.winner() matches Some(sente)
                &&& value == decided_value(sente)
            },
            Node::Edges(edges) => {
                &&& board.winner() is None
                &&& edges@.len() == board.moves_below(121).len()
                &&& visits == total_visits(edges@) + 1
                &&& forall|i: int|
                    0 <= i < edges@.len() ==> (#[trigger] edges@[i]).action
                        == board.moves_below(121)[i].0 && edges@[i].child.ok(
                        board.played(edges@[i].action as int),
                        edges@[i].visits as nat,
                    )
            },
        }
    }

    /// Whether a visit can make this node, which stands for `board`, `after` and pass `back` up.
    ///
    /// The first visit finds out whether the game is over, and if it is not, evaluates the board.
    /// Later visits go on to the move that deserves it most.
    pub open spec fn stepped<E: Evaluator, A: Arithmetic>(
        self,
        after: Node,
        eval: &E,
        arith: &A,
        value_decay: F32,
        board: Bitboard,
        parent_value: F32,
        back: F32,
    ) -> bool
        decreases self,
    {
        match self {
            Node::Leaf => match board.winner() {
                Some(sente) => after == Node::Terminal(decided_value(sente)) && back
                    == decided_value(sente),
                None => {
                    &&& after matches Node::Edges(edges)
                    &&& exists|res: EvalResult|
                        #[trigger] call_ensures(E::call, (eval, board), res) && back == res.value
                            && fresh_edges(edges@, board, res.policy@, arith)
                },
            },
            Node::Terminal(value) => after == self && back == value,
            Node::Edges(before) => {
                &&& after matches Node::Edges(edges)
                &&& edges@.len() == before@.len()
                &&& exists|i: int|
                    {
                        &&& 0 <= i < before@.len()
                        &&& #[trigger] selected(before@, arith, board, parent_value, i)
                        &&& before@[i].stepped(edges@[i], eval, arith, value_decay, board, back)
                        &&& edges@ == before@.update(i, edges@[i])
                    }
            },
        }
    }
}

proof fn lemma_visits_at(edges: Seq<Edge>, i: int)
    requires
        0 <= i < edges.len(),
    ensures
        edges[i].visits <= total_visits(edges),
    decreases edges.len(),
{
    if i < edges.len() - 1 {
        lemma_visits_at(edges.drop_last(), i);
        assert(edges.drop_last()[i] == edges[i]);
    }
}

proof fn lemma_visits_update(edges: Seq<Edge>, i: int, edge: Edge)
    requires
        0 <= i < edges.len(),
    ensures
        total_visits(edges.update(i, edge)) == total_visits(edges) + edge.visits - edges[i].visits,
    decreases edges.len(),
{
    let after = edges.update(i, edge);
    if i == edges.len() - 1 {
        assert(after.drop_last() =~= edges.drop_last());
    } else {
        assert(after.drop_last() =~= edges.drop_last().update(i, edge));
        lemma_visits_update(edges.drop_last(), i, edge);
    }
}

proof fn lemma_visits_none(edges: Seq<Edge>)
    requires
        forall|i: int| 0 <= i < edges.len() ==> (#[trigger] edges[i]).visits == 0,
    ensures
        total_visits(edges) == 0,
    decreases edges.len(),
{
    if edges.len() > 0 {
        let less = edges.drop_last();
        assert forall|i: int| 0 <= i < less.len() implies (#[trigger] less[i]).visits == 0 by {
            assert(edges[i].visits == 0);
        }
        lemma_visits_none(less);
        assert(edges[edges.len() - 1].visits == 0);
    }
}

/// How often the moves were visited.
fn sum_visits(edges: &Vec<Edge>) -> (total: usize)
    requires
        total_visits(edges@) <= usize::MAX,
    ensures
        total == total_visits(edges@),
{
    let mut total: usize = 0;
    let mut i: usize = 0;
    assert(edges@.take(0).len() == 0);
    while i < edges.len()
        invariant
            i <= edges@.len(),
            total_visits(edges@) <= usize::MAX,
            total == total_visits(edges@.take(i as int)),
        decreases edges@.len() - i,
    {
        proof {
            assert(edges@.take(i + 1).drop_last() =~= edges@.take(i as int));
            lemma_visits_prefix(edges@, i + 1);
        }
        total = total + edges[i].visits;
        i = i + 1;
    }
    assert(edges@.take(i as int) =~= edges@);
    total
}

proof fn lemma_visits_prefix(edges: Seq<Edge>, n: int)
    requires
        0 <= n <= edges.len(),
    ensures
        total_visits(edges.take(n)) <= total_visits(edges),
    decreases edges.len() - n,
{
    if n < edges.len() {
        lemma_visits_prefix(edges, n + 1);
        assert(edges.take(n + 1).drop_last() =~= edges.take(n));
    } else {
        assert(edges.take(n) =~= edges);
    }
}

/// The place of the last of the moves that deserve a visit most.
fn select<A: Arithmetic>(
    edges: &Vec<Edge>,
    arith: &A,
    board: Bitboard,
    parent_value: F32,
) -> (place: usize)
    requires
        edges@.len() > 0,
        total_visits(edges@) <= usize::MAX,
    ensures
        place < edges@.len(),
        selected(edges@, arith, board, parent_value, place as int),
{
    let invert_value = !board.sente();
    let total: usize = sum_visits(edges);
    let mut keys: Vec<i64> = Vec::new();
    let ghost mut scores: Seq<Finite> = Seq::empty();
    let mut i: usize = 0;
    while i < edges.len()
        invariant
            i <= edges@.len(),
            total == total_visits(edges@),
            keys@.len() == i,
            scores.len() == i,
            forall|j: int| 0 <= j < i ==> #[trigger] keys@[j] == scores[j].rank(),
            forall|j: int|
                0 <= j < i ==> edge_score(
                    edges@[j],
                    arith,
                    invert_value,
                    parent_value,
                    total,
                    #[trigger] scores[j],
                ),
        decreases edges@.len() - i,
    {
        let edge = &edges[i];
        let value = if edge.visits == 0 {
            arith.first_play(invert_value, parent_value)
        } else {
            edge.mean_value
        };
        let score = arith.puct(invert_value, value, edge.prior, edge.visits, total);
        keys.push(score.order());
        proof {
            assert(edge_score(edges@[i as int], arith, invert_value, parent_value, total, score));
            scores = scores.push(score);
        }
        i = i + 1;
    }
    assert(as_ints(keys@) =~= ranks(scores));
    match argmax(&keys) {
        Some(place) => {
            assert(edge_scores(edges@, arith, board, parent_value, scores));
            place
        },
        None => 0,
    }
}

/// The edges of a board that has been evaluated.
fn expand<A: Arithmetic>(board: Bitboard, policy: &Vec<F32>, arith: &A) -> (edges: Vec<Edge>)
    requires
        policy@.len() == 121,
    ensures
        fresh_edges(edges@, board, policy@, arith),
{
    let moves = board.moves();
    proof {
        moves_are_the_empty_cells(board, 121);
    }
    let mut legal: Vec<F32> = Vec::new();
    let mut i: usize = 0;
    while i < moves.len()
        invariant
            i <= moves@.len(),
            moves@ == board.moves_below(121),
            policy@.len() == 121,
            forall|j: int| 0 <= j < moves@.len() ==> (#[trigger] moves@[j]).0 < 121,
            legal@.len() == i,
            forall|j: int| 0 <= j < i ==> #[trigger] legal@[j] == policy@[moves@[j].0 as int],
        decreases moves@.len() - i,
    {
        legal.push(policy[moves[i].0]);
        i = i + 1;
    }
    assert(legal@ =~= legal_policy(board, policy@));
    let denominator = arith.denominator(&legal);
    let mut edges: Vec<Edge> = Vec::new();
    let mut k: usize = 0;
    while k < moves.len()
        invariant
            k <= moves@.len(),
            moves@ == board.moves_below(121),
            policy@.len() == 121,
            forall|j: int| 0 <= j < moves@.len() ==> (#[trigger] moves@[j]).0 < 121,
            edges@.len() == k,
            forall|j: int|
                0 <= j < k ==> fresh_edge(
                    #[trigger] edges@[j],
                    moves@[j].0,
                    policy@,
                    denominator,
                    arith,
                ),
        decreases moves@.len() - k,
    {
        let action: usize = moves[k].0;
        let prior = arith.quotient(policy[action], denominator);
        edges.push(
            Edge {
                action,
                visits: 0,
                total_value: F32(0),
                mean_value: F32(0),
                prior,
                child: Node::Leaf,
            },
        );
        k = k + 1;
    }
    assert(call_ensures(A::denominator, (arith, &legal), denominator));
    edges
}

impl Edge {
    /// Visit the move, made on `board`.
    fn step<E: Evaluator, A: Arithmetic>(
        &mut self,
        eval: &E,
        arith: &A,
        value_decay: F32,
        board: Bitboard,
    ) -> (back: F32)
        requires
            old(self).action < 121,
            old(self).visits < usize::MAX,
            old(self).child.ok(board.played(old(self).action as int), old(self).visits as nat),
        ensures
            old(self).stepped(*final(self), eval, arith, value_decay, board, back),
            final(self).child.ok(
                board.played(final(self).action as int),
                final(self).visits as nat,
            ),
        decreases *old(self),
    {
        let value = self.child.step(
            eval,
            arith,
            value_decay,
            board.nth_child(self.action),
            self.mean_value,
            Ghost(self.visits as nat),
        );
        self.visits = self.visits + 1;
        self.total_value = arith.sum(self.total_value, value);
        let n = arith.count(self.visits);
        self.mean_value = arith.quotient(self.total_value, n);
        let back = arith.decay(value, value_decay);
        proof {
            assert(mean_of(arith, self.total_value, self.visits, self.mean_value));
            assert(call_ensures(A::decay, (arith, value, value_decay), back));
        }
        back
    }
}

impl Node {
    /// Visit the node, which stands for `board`.
    fn step<E: Evaluator, A: Arithmetic>(
        &mut self,
        eval: &E,
        arith: &A,
        value_decay: F32,
        board: Bitboard,
        parent_value: F32,
        Ghost(visits): Ghost<nat>,
    ) -> (back: F32)
        requires
            old(self).ok(board, visits),
            visits < usize::MAX,
        ensures
            old(self).stepped(*final(self), eval, arith, value_decay, board, parent_value, back),
            final(self).ok(board, visits + 1),
        decreases *old(self),
    {
        match self {
            Node::Leaf => {
                if let Some(sente) = board.win() {
                    let value = if sente {
                        F32(0x3f80_0000)
                    } else {
                        F32(0xbf80_0000)
                    };
                    *self = Node::Terminal(value);
                    value
                } else {
                    let res = eval.call(board);
                    let edges = expand(board, &res.policy, arith);
                    proof {
                        assert(call_ensures(E::call, (eval, board), res));
                        lemma_visits_none(edges@);
                        moves_are_the_empty_cells(board, 121);
                        assert forall|i: int| 0 <= i < edges@.len() implies (
                        #[trigger] edges@[i]).child.ok(
                            board.played(edges@[i].action as int),
                            edges@[i].visits as nat,
                        ) by {}
                    }
                    *self = Node::Edges(edges);
                    res.value
                }
            },
            Node::Terminal(value) => *value,
            Node::Edges(edges) => {
                let ghost before = edges@;
                proof {
                    an_undecided_board_has_a_move(board);
                    moves_are_the_empty_cells(board, 121);
                }
                let place: usize = select(edges, arith, board, parent_value);
                proof {
                    lemma_visits_at(before, place as int);
                }
                let back = edges[place].step(eval, arith, value_decay, board);
                proof {
                    assert(edges@ =~= before.update(place as int, edges@[place as int]));
                    lemma_visits_update(before, place as int, edges@[place as int]);
                    assert(selected(before, arith, board, parent_value, place as int));
                }
                back
            },
        }
    }
}

/// The tree of a search.
pub struct Tree {
    pub dirichlet: F32,
    pub value_decay: F32,
    pub root_board: Bitboard,
    pub root_visits: usize,
    pub root_total_value: F32,
    pub root_mean_value: F32,
    pub root: Node,
}

/// Whether the number is greater than zero.
pub open spec fn positive(x: F32) -> bool {
    !x.nan() && x.rank() > 0
}

/// Whether `after` are the edges with noise mixed into their priors.
pub open spec fn noisy_edges<A: Arithmetic>(
    before: Seq<Edge>,
    after: Seq<Edge>,
    noise: Seq<F32>,
    dirichlet: F32,
    arith: &A,
) -> bool {
    &&& after.len() == before.len()
    &&& forall|i: int|
        0 <= i < before.len() ==> {
            &&& #[trigger] after[i] == Edge { prior: after[i].prior, ..before[i] }
            &&& if i < noise.len() {
                call_ensures(
                    A::mixed,
                    (arith, before[i].prior, noise[i], dirichlet),
                    after[i].prior,
                )
            } else {
                after[i].prior == before[i].prior
            }
        }
}

impl Tree {
    /// The moves at the root.
    pub open spec fn edges(self) -> Seq<Edge> {
        match self.root {
            Node::Edges(edges) => edges@,
            _ => Seq::empty(),
        }
    }

    /// Whether the tree is that of its board, whose game is not over, after its visits.
    pub open spec fn ok(self) -> bool {
        &&& self.root.ok(self.root_board, self.root_visits as nat)
        &&& self.root_board.winner() is None
    }

    /// Whether a visit to the root can make this tree `after`.
    ///
    /// The first visit mixes noise into the priors of the moves, if there are two at least and the
    /// share of the noise is greater than zero.
    pub open spec fn stepped<E: Evaluator, A: Arithmetic>(
        self,
        after: Tree,
        eval: &E,
        arith: &A,
    ) -> bool {
        &&& after.dirichlet == self.dirichlet
        &&& after.value_decay == self.value_decay
        &&& after.root_board == self.root_board
        &&& after.root_visits == self.root_visits + 1
        &&& mean_of(arith, after.root_total_value, after.root_visits, after.root_mean_value)
        &&& exists|visited: Node, back: F32|
            {
                &&& #[trigger] self.root.stepped(
                    visited,
                    eval,
                    arith,
                    self.value_decay,
                    self.root_board,
                    self.root_mean_value,
                    back,
                )
                &&& call_ensures(
                    A::sum,
                    (arith, self.root_total_value, back),
                    after.root_total_value,
                )
                &&& if self.root_visits == 0 && positive(self.dirichlet) && (visited matches
                    Node::Edges(edges) && edges@.len() >= 2) {
                    exists|noise: Vec<F32>|
                        #[trigger] call_ensures(
                            A::noise,
                            (arith, visited->Edges_0@.len() as usize),
                            noise,
                        ) && after.root is Edges && noisy_edges(
                            visited->Edges_0@,
                            after.edges(),
                            noise@,
                            self.dirichlet,
                            arith,
                        )
                } else {
                    after.root == visited
                }
            }
    }

    /// A tree without a visit.
    pub fn new(board: Bitboard, dirichlet: F32, value_decay: F32) -> (tree: Tree)
        requires
            board.winner() is None,
        ensures
            tree.ok(),
            tree.fresh(board, dirichlet, value_decay),
    {
        Tree {
            dirichlet,
            value_decay,
            root_board: board,
            root_visits: 0,
            root_total_value: F32(0),
            root_mean_value: F32(0),
            root: Node::Leaf,
        }
    }

    /// Whether this is the tree of the board before the first visit.
    pub open spec fn fresh(self, board: Bitboard, dirichlet: F32, value_decay: F32) -> bool {
        &&& self.dirichlet == dirichlet
        &&& self.value_decay == value_decay
        &&& self.root_board == board
        &&& self.root_visits == 0
        &&& self.root_total_value == F32(0)
        &&& self.root_mean_value == F32(0)
        &&& self.root is Leaf
    }

    /// Visit the root.
    pub fn step<E: Evaluator, A: Arithmetic>(&mut self, eval: &E, arith: &A)
        requires
            old(self).ok(),
            old(self).root_visits < usize::MAX,
        ensures
            final(self).ok(),
            old(self).stepped(*final(self), eval, arith),
            final(self).root is Edges,
    {
        let ghost before = *self;
        let back = self.root.step(
            eval,
            arith,
            self.value_decay,
            self.root_board,
            self.root_mean_value,
            Ghost(self.root_visits as nat),
        );
        let ghost visited = self.root;
        if self.root_visits == 0 && self.dirichlet.greater(F32(0)) {
            let dirichlet = self.dirichlet;
            if let Node::Edges(edges) = &mut self.root {
                if edges.len() >= 2 {
                    let n: usize = edges.len();
                    let noise = arith.noise(n);
                    assert(call_ensures(A::noise, (arith, n), noise));
                    mix_noise(edges, &noise, dirichlet, arith);
                    proof {
                        lemma_noise_keeps_ok(
                            visited->Edges_0@,
                            edges@,
                            noise@,
                            dirichlet,
                            arith,
                            before.root_board,
                        );
                    }
                }
            }
        }
        self.root_visits = self.root_visits + 1;
        self.root_total_value = arith.sum(self.root_total_value, back);
        let n = arith.count(self.root_visits);
        self.root_mean_value = arith.quotient(self.root_total_value, n);
        proof {
            assert(mean_of(arith, self.root_total_value, self.root_visits, self.root_mean_value));
            assert(before.root.stepped(
                visited,
                eval,
                arith,
                before.value_decay,
                before.root_board,
                before.root_mean_value,
                back,
            ));
        }
    }
}

/// Mix noise into the priors.
fn mix_noise<A: Arithmetic>(edges: &mut Vec<Edge>, noise: &Vec<F32>, dirichlet: F32, arith: &A)
    ensures
        noisy_edges(old(edges)@, final(edges)@, noise@, dirichlet, arith),
{
    let mut i: usize = 0;
    while i < edges.len() && i < noise.len()
        invariant
            edges@.len() == old(edges)@.len(),
            i <= edges@.len(),
            i <= noise@.len(),
            forall|j: int|
                0 <= j < i ==> {
                    &&& #[trigger] edges@[j] == Edge { prior: edges@[j].prior, ..old(edges)@[j] }
                    &&& call_ensures(
                        A::mixed,
                        (arith, old(edges)@[j].prior, noise@[j], dirichlet),
                        edges@[j].prior,
                    )
                },
            forall|j: int| i <= j < edges@.len() ==> #[trigger] edges@[j] == old(edges)@[j],
        decreases edges@.len() - i,
    {
        let ghost now = edges@;
        let prior = arith.mixed(edges[i].prior, noise[i], dirichlet);
        edges[i].prior = prior;
        assert(edges@ =~= now.update(i as int, Edge { prior, ..now[i as int] }));
        i = i + 1;
    }
}

proof fn lemma_noise_keeps_visits(before: Seq<Edge>, after: Seq<Edge>)
    requires
        after.len() == before.len(),
        forall|i: int| 0 <= i < before.len() ==> (#[trigger] after[i]).visits == before[i].visits,
    ensures
        total_visits(after) == total_visits(before),
    decreases before.len(),
{
    if before.len() > 0 {
        assert forall|i: int| 0 <= i < before.len() - 1 implies (
        #[trigger] after.drop_last()[i]).visits == before.drop_last()[i].visits by {
            assert(after[i].visits == before[i].visits);
        }
        lemma_noise_keeps_visits(before.drop_last(), after.drop_last());
        assert(after[before.len() - 1].visits == before[before.len() - 1].visits);
    }
}

/// Mixing in noise changes nothing but priors.
proof fn lemma_noise_keeps_ok<A: Arithmetic>(
    before: Seq<Edge>,
    after: Seq<Edge>,
    noise: Seq<F32>,
    dirichlet: F32,
    arith: &A,
    board: Bitboard,
)
    requires
        noisy_edges(before, after, noise, dirichlet, arith),
        forall|i: int|
            0 <= i < before.len() ==> (#[trigger] before[i]).action == board.moves_below(121)[i].0
                && before[i].child.ok(
                board.played(before[i].action as int),
                before[i].visits as nat,
            ),
    ensures
        total_visits(after) == total_visits(before),
        forall|i: int|
            0 <= i < after.len() ==> (#[trigger] after[i]).action == board.moves_below(121)[i].0
                && after[i].child.ok(board.played(after[i].action as int), after[i].visits as nat),
{
    assert forall|i: int| 0 <= i < before.len() implies (#[trigger] after[i]).visits
        == before[i].visits by {
        assert(after[i] == Edge { prior: after[i].prior, ..before[i] });
    }
    lemma_noise_keeps_visits(before, after);
    assert forall|i: int| 0 <= i < after.len() implies (#[trigger] after[i]).action
        == board.moves_below(121)[i].0 && after[i].child.ok(
        board.played(after[i].action as int),
        after[i].visits as nat,
    ) by {
        assert(after[i] == Edge { prior: after[i].prior, ..before[i] });
        assert(before[i].action == board.moves_below(121)[i].0);
    }
}

/// Whether `counts` says how often each cell was moved to.
pub open spec fn visit_counts<A: Arithmetic>(
    edges: Seq<Edge>,
    counts: Seq<F32>,
    arith: &A,
) -> bool {
    &&& counts.len() == 121
    &&& forall|i: int|
        0 <= i < edges.len() ==> call_ensures(
            A::count,
            (arith, (#[trigger] edges[i]).visits),
            counts[edges[i].action as int],
        )
    &&& forall|n: int|
        0 <= n < 121 && (forall|i: int| 0 <= i < edges.len() ==> (#[trigger] edges[i]).action != n)
            ==> #[trigger] counts[n] == F32(0)
}

/// Whether `sums` are the sums of the counts of the first edges.
pub open spec fn count_sums<A: Arithmetic>(
    edges: Seq<Edge>,
    counts: Seq<F32>,
    sums: Seq<F32>,
    arith: &A,
) -> bool {
    &&& sums.len() == edges.len() + 1
    &&& sums[0] == F32(0)
    &&& forall|i: int|
        0 <= i < edges.len() ==> call_ensures(
            A::sum,
            (arith, sums[i], counts[(#[trigger] edges[i]).action as int]),
            sums[i + 1],
        )
}

/// Whether `policy` gives each cell its share of the visits.
#[verifier::opaque]
pub open spec fn visit_policy<A: Arithmetic>(
    edges: Seq<Edge>,
    policy: Seq<F32>,
    arith: &A,
) -> bool {
    exists|counts: Seq<F32>, sums: Seq<F32>|
        {
            &&& visit_counts(edges, counts, arith)
            &&& #[trigger] count_sums(edges, counts, sums, arith)
            &&& policy.len() == 121
            &&& forall|n: int|
                0 <= n < 121 ==> call_ensures(
                    A::quotient,
                    (arith, counts[n], sums.last()),
                    #[trigger] policy[n],
                )
        }
}

/// The mean value of a move, or zero where it cannot be made.
pub open spec fn value_of_action(edges: Seq<Edge>, action: int) -> F32
    decreases edges.len(),
{
    if edges.len() == 0 {
        F32(0)
    } else if edges[0].action == action {
        edges[0].mean_value
    } else {
        value_of_action(edges.drop_first(), action)
    }
}

/// Whether `values` holds the mean value of each move, and NaN where none can be made.
pub open spec fn action_values(edges: Seq<Edge>, values: Seq<F32>) -> bool {
    &&& values.len() == 121
    &&& forall|i: int|
        0 <= i < edges.len() ==> values[(#[trigger] edges[i]).action as int] == edges[i].mean_value
    &&& forall|n: int|
        0 <= n < 121 && (forall|i: int| 0 <= i < edges.len() ==> (#[trigger] edges[i]).action != n)
            ==> #[trigger] values[n] == F32(0x7fc0_0000)
}

/// Whether `sums` are the running totals of the policy.
#[verifier::opaque]
pub open spec fn policy_totals<A: Arithmetic>(
    policy: Seq<F32>,
    sums: Seq<F32>,
    arith: &A,
) -> bool {
    &&& sums.len() == policy.len()
    &&& policy.len() > 0 ==> sums[0] == policy[0]
    &&& forall|i: int|
        1 <= i < policy.len() ==> call_ensures(
            A::sum,
            (arith, sums[i - 1], policy[i]),
            #[trigger] sums[i],
        )
}

/// The ranks of the numbers.
pub open spec fn f32_ranks(xs: Seq<F32>) -> Seq<int> {
    Seq::new(xs.len(), |i: int| xs[i].rank())
}

/// The cell with the greatest share of a policy, the last one if there are several.
pub fn policy_argmax(policy: &Vec<F32>) -> (place: Option<usize>)
    ensures
        place is None <==> policy@.len() == 0,
        place matches Some(i) ==> is_last_max(f32_ranks(policy@), i as int),
{
    let mut keys: Vec<i64> = Vec::new();
    let mut i: usize = 0;
    while i < policy.len()
        invariant
            i <= policy@.len(),
            keys@.len() == i,
            forall|j: int| 0 <= j < i ==> #[trigger] keys@[j] == policy@[j].rank(),
        decreases policy@.len() - i,
    {
        keys.push(policy[i].order());
        i = i + 1;
    }
    assert(as_ints(keys@) =~= f32_ranks(policy@));
    argmax(&keys)
}

impl Output {
    /// Whether this is what a tree shows when `sample` was drawn from the policy.
    #[verifier::opaque]
    pub open spec fn shows(self, tree: Tree, policy: Seq<F32>, sample: int) -> bool {
        &&& self.board_sample == tree.root_board.played(sample)
        &&& self.policy@ == policy
        &&& action_values(tree.edges(), self.values@)
        &&& self.value_sample == value_of_action(tree.edges(), sample)
        &&& exists|best: int|
            {
                &&& #[trigger] is_last_max(f32_ranks(policy), best)
                &&& self.board_best == tree.root_board.played(best)
                &&& self.value_best == value_of_action(tree.edges(), best)
            }
    }
}

/// Whether the moves are cells, in ascending order.
spec fn ascending(edges: Seq<Edge>) -> bool {
    &&& forall|i: int| 0 <= i < edges.len() ==> (#[trigger] edges[i]).action < 121
    &&& forall|i: int, j: int|
        0 <= i < j < edges.len() ==> (#[trigger] edges[i]).action < (#[trigger] edges[j]).action
}

impl Tree {
    proof fn lemma_ascending(self)
        requires
            self.ok(),
        ensures
            ascending(self.edges()),
    {
        moves_are_the_empty_cells(self.root_board, 121);
        let edges = self.edges();
        let moves = self.root_board.moves_below(121);
        if self.root is Edges {
            assert forall|i: int| 0 <= i < edges.len() implies (#[trigger] edges[i]).action
                == moves[i].0 by {}
        }
    }

    /// The share of the visits that each cell got.
    pub fn policy<A: Arithmetic>(&self, arith: &A) -> (policy: Vec<F32>)
        requires
            self.ok(),
            self.root is Edges,
        ensures
            visit_policy(self.edges(), policy@, arith),
            policy@.len() == 121,
    {
        let Node::Edges(edges) = &self.root else {
            return Vec::new();
        };
        proof {
            self.lemma_ascending();
        }
        let mut counts: Vec<F32> = vec![F32(0); BOARD_SIZE];
        let mut total = F32(0);
        let ghost mut sums: Seq<F32> = seq![F32(0)];
        let mut i: usize = 0;
        while i < edges.len()
            invariant
                edges@ == self.edges(),
                ascending(edges@),
                i <= edges@.len(),
                counts@.len() == 121,
                sums.len() == i + 1,
                sums[0] == F32(0),
                total == sums.last(),
                forall|j: int|
                    0 <= j < i ==> call_ensures(
                        A::count,
                        (arith, (#[trigger] edges@[j]).visits),
                        counts@[edges@[j].action as int],
                    ),
                forall|j: int|
                    0 <= j < i ==> call_ensures(
                        A::sum,
                        (arith, sums[j], counts@[(#[trigger] edges@[j]).action as int]),
                        sums[j + 1],
                    ),
                forall|n: int|
                    0 <= n < 121 && (forall|j: int|
                        0 <= j < i ==> (#[trigger] edges@[j]).action != n)
                        ==> #[trigger] counts@[n] == F32(0),
            decreases edges@.len() - i,
        {
            let ghost before = counts@;
            let edge = &edges[i];
            let x = arith.count(edge.visits);
            counts[edge.action] = x;
            let ghost last = total;
            total = arith.sum(total, x);
            proof {
                assert(counts@ == before.update(edge.action as int, x));
                sums = sums.push(total);
                assert forall|n: int|
                    0 <= n < 121 && (forall|j: int|
                        0 <= j < i + 1 ==> (#[trigger] edges@[j]).action
                            != n) implies #[trigger] counts@[n] == F32(0) by {
                    assert(edges@[i as int].action != n);
                    assert(before[n] == F32(0));
                }
            }
            i = i + 1;
        }
        let mut policy: Vec<F32> = Vec::new();
        let mut n: usize = 0;
        while n < BOARD_SIZE
            invariant
                n <= 121,
                counts@.len() == 121,
                policy@.len() == n,
                forall|m: int|
                    0 <= m < n ==> call_ensures(
                        A::quotient,
                        (arith, counts@[m], total),
                        #[trigger] policy@[m],
                    ),
            decreases 121 - n,
        {
            policy.push(arith.quotient(counts[n], total));
            n = n + 1;
        }
        proof {
            assert(visit_counts(self.edges(), counts@, arith));
            assert(count_sums(self.edges(), counts@, sums, arith));
            reveal(visit_policy);
        }
        policy
    }

    /// The mean value of a move, or zero where it cannot be made.
    pub fn value(&self, action: usize) -> (value: F32)
        requires
            self.root is Edges,
        ensures
            value == value_of_action(self.edges(), action as int),
    {
        let Node::Edges(edges) = &self.root else {
            return F32(0);
        };
        let mut i: usize = 0;
        assert(edges@.skip(0) =~= edges@);
        while i < edges.len()
            invariant
                edges@ == self.edges(),
                i <= edges@.len(),
                value_of_action(self.edges(), action as int) == value_of_action(
                    edges@.skip(i as int),
                    action as int,
                ),
            decreases edges@.len() - i,
        {
            assert(edges@.skip(i as int).drop_first() =~= edges@.skip(i + 1));
            if edges[i].action == action {
                return edges[i].mean_value;
            }
            i = i + 1;
        }
        F32(0)
    }

    /// The mean values of all moves.
    pub fn values(&self) -> (values: Vec<F32>)
        requires
            self.ok(),
            self.root is Edges,
        ensures
            action_values(self.edges(), values@),
    {
        let Node::Edges(edges) = &self.root else {
            return Vec::new();
        };
        proof {
            self.lemma_ascending();
        }
        let mut values: Vec<F32> = vec![F32(0x7fc0_0000); BOARD_SIZE];
        let mut i: usize = 0;
        while i < edges.len()
            invariant
                edges@ == self.edges(),
                ascending(edges@),
                i <= edges@.len(),
                values@.len() == 121,
                forall|j: int|
                    0 <= j < i ==> values@[(#[trigger] edges@[j]).action as int]
                        == edges@[j].mean_value,
                forall|n: int|
                    0 <= n < 121 && (forall|j: int|
                        0 <= j < i ==> (#[trigger] edges@[j]).action != n)
                        ==> #[trigger] values@[n] == F32(0x7fc0_0000),
            decreases edges@.len() - i,
        {
            let ghost before = values@;
            let edge = &edges[i];
            values[edge.action] = edge.mean_value;
            proof {
                assert(values@ == before.update(edge.action as int, edge.mean_value));
                assert forall|n: int|
                    0 <= n < 121 && (forall|j: int|
                        0 <= j < i + 1 ==> (#[trigger] edges@[j]).action
                            != n) implies #[trigger] values@[n] == F32(0x7fc0_0000) by {
                    assert(edges@[i as int].action != n);
                    assert(before[n] == F32(0x7fc0_0000));
                }
            }
            i = i + 1;
        }
        values
    }

    /// What the tree shows when `sample` was drawn from the policy.
    pub fn output(&self, policy: Vec<F32>, sample: usize) -> (out: Output)
        requires
            self.ok(),
            self.root is Edges,
            policy@.len() == 121,
            sample < 121,
        ensures
            out.shows(*self, policy@, sample as int),
    {
        let best: usize = match policy_argmax(&policy) {
            Some(best) => best,
            None => 0,
        };
        proof {
            assert(is_last_max(f32_ranks(policy@), best as int));
            reveal(Output::shows);
        }
        Output {
            board_sample: self.root_board.nth_child(sample),
            board_best: self.root_board.nth_child(best),
            policy,
            values: self.values(),
            value_sample: self.value(sample),
            value_best: self.value(best),
        }
    }
}

/// Whether `rounds` visits can make `tree`.
pub open spec fn grown<E: Evaluator, A: Arithmetic>(
    board: Bitboard,
    dirichlet: F32,
    value_decay: F32,
    rounds: nat,
    tree: Tree,
    eval: &E,
    arith: &A,
) -> bool
    decreases rounds,
{
    if rounds == 0 {
        tree.fresh(board, dirichlet, value_decay)
    } else {
        exists|before: Tree|
            grown(board, dirichlet, value_decay, (rounds - 1) as nat, before, eval, arith)
                && #[trigger] before.stepped(tree, eval, arith)
    }
}

/// Whether `out` is drawn from the policy by a threshold: the first move whose running total is
/// greater, if there is one.
pub open spec fn drawn<A: Arithmetic>(
    tree: Tree,
    arith: &A,
    policy: Seq<F32>,
    sums: Seq<F32>,
    threshold: F32,
    out: Option<Output>,
) -> bool {
    &&& visit_policy(tree.edges(), policy, arith)
    &&& policy_totals(policy, sums, arith)
    &&& call_ensures(A::threshold, (arith, sums.last()), threshold)
    &&& match out {
        Some(out) => exists|sample: int|
            #[trigger] first_greater(sums, threshold, sample) && out.shows(tree, policy, sample),
        None => forall|sample: int| !#[trigger] first_greater(sums, threshold, sample),
    }
}

/// Whether a search can end with `out` once its tree is `tree`: a move is drawn from the shares of
/// the visits.
pub open spec fn concluded<A: Arithmetic>(tree: Tree, arith: &A, out: Option<Output>) -> bool {
    exists|policy: Seq<F32>, sums: Seq<F32>, threshold: F32|
        #[trigger] drawn(tree, arith, policy, sums, threshold, out)
}

/// The running totals of the policy.
pub(crate) fn policy_sums<A: Arithmetic>(policy: &Vec<F32>, arith: &A) -> (sums: Vec<F32>)
    ensures
        policy_totals(policy@, sums@, arith),
        sums@.len() == policy@.len(),
{
    proof {
        reveal(policy_totals);
    }
    let plus = |a: F32, b: F32| -> (c: F32)
        ensures
            call_ensures(A::sum, (arith, a, b), c),
        { arith.sum(a, b) };
    let shares = policy.clone();
    assert(shares@ =~= policy@);
    let sums = cumsum(shares, &plus);
    assert forall|i: int| 1 <= i < policy@.len() implies call_ensures(
        A::sum,
        (arith, sums@[i - 1], policy@[i]),
        #[trigger] sums@[i],
    ) by {
        assert(call_ensures(plus, (sums@[i - 1], policy@[i]), sums@[i]));
    }
    sums
}

/// Draw a move from the shares of the visits.
pub fn conclude<A: Arithmetic>(tree: &Tree, arith: &A) -> (out: Option<Output>)
    requires
        tree.ok(),
        tree.root is Edges,
    ensures
        concluded(*tree, arith, out),
{
    let policy = tree.policy(arith);
    let ghost shares = policy@;
    let sums = policy_sums(&policy, arith);
    let threshold = arith.threshold(sums[sums.len() - 1]);
    let out = match place_of(&sums, threshold) {
        Some(sample) => Some(tree.output(policy, sample)),
        None => None,
    };
    assert(drawn(*tree, arith, shares, sums@, threshold, out));
    out
}

/// Whether the monitor, asked after `iters` visits, can say that the search goes on, or that it does
/// not.
pub open spec fn answers<M: Monitor>(mon: &M, iters: usize, on: bool) -> bool {
    exists|flow: ControlFlow<()>|
        #[trigger] call_ensures(M::defer, (mon, Stats { iters }), flow) && (flow is Continue) == on
}

/// Whether a monitor that is asked after each visit can let a search make exactly `rounds` visits.
pub open spec fn allowed<M: Monitor>(mon: &M, rounds: nat) -> bool {
    &&& forall|n: usize| 0 < n < rounds ==> #[trigger] answers(mon, n, true)
    &&& rounds < usize::MAX ==> answers(mon, rounds as usize, false)
}

/// A function that can be called is a monitor that can be asked, and answers what it returns.
pub proof fn a_function_monitors<F: Fn(usize) -> bool>(f: &F)
    requires
        forall|iters: usize| call_requires(*f, (iters,)),
    ensures
        f.listens(),
        forall|iters: usize, on: bool| #[trigger]
            answers(f, iters, on) ==> call_ensures(*f, (iters,), on),
{
}

/// Whether a search from `board` can end with `out`: it makes as many visits as the monitor lets
/// it.
pub open spec fn searched<E: Evaluator, A: Arithmetic, M: Monitor>(
    board: Bitboard,
    dirichlet: F32,
    value_decay: F32,
    eval: &E,
    arith: &A,
    mon: &M,
    out: Option<Output>,
) -> bool {
    exists|rounds: nat, tree: Tree|
        {
            &&& #[trigger] grown_to(board, dirichlet, value_decay, rounds, tree, eval, arith)
            &&& allowed(mon, rounds)
            &&& concluded(tree, arith, out)
        }
}

/// Whether `rounds` visits, one at least, can make `tree`.
pub open spec fn grown_to<E: Evaluator, A: Arithmetic>(
    board: Bitboard,
    dirichlet: F32,
    value_decay: F32,
    rounds: nat,
    tree: Tree,
    eval: &E,
    arith: &A,
) -> bool {
    &&& rounds > 0
    &&& grown(board, dirichlet, value_decay, rounds, tree, eval, arith)
    &&& tree.ok()
}

/// Visits do not change what a tree is about.
pub proof fn a_tree_keeps_its_board<E: Evaluator, A: Arithmetic>(
    board: Bitboard,
    dirichlet: F32,
    value_decay: F32,
    rounds: nat,
    tree: Tree,
    eval: &E,
    arith: &A,
)
    requires
        grown(board, dirichlet, value_decay, rounds, tree, eval, arith),
    ensures
        tree.root_board == board,
        tree.root_visits == rounds,
    decreases rounds,
{
    if rounds > 0 {
        let before = choose|before: Tree|
            grown(board, dirichlet, value_decay, (rounds - 1) as nat, before, eval, arith)
                && #[trigger] before.stepped(tree, eval, arith);
        a_tree_keeps_its_board(
            board,
            dirichlet,
            value_decay,
            (rounds - 1) as nat,
            before,
            eval,
            arith,
        );
    }
}

/// Both moves that a search ends with are moves on its board.
pub proof fn a_search_moves_on_its_board<E: Evaluator, A: Arithmetic, M: Monitor>(
    board: Bitboard,
    dirichlet: F32,
    value_decay: F32,
    eval: &E,
    arith: &A,
    mon: &M,
    out: Output,
)
    requires
        searched(board, dirichlet, value_decay, eval, arith, mon, Some(out)),
    ensures
        out.policy@.len() == 121,
        out.values@.len() == 121,
        exists|n: int| 0 <= n < 121 && out.board_sample == #[trigger] board.played(n),
        exists|n: int|
            is_last_max(f32_ranks(out.policy@), n) && out.board_best == #[trigger] board.played(n),
{
    let (rounds, tree) = choose|rounds: nat, tree: Tree|
        #[trigger] grown_to(board, dirichlet, value_decay, rounds, tree, eval, arith) && concluded(
            tree,
            arith,
            Some(out),
        );
    a_tree_keeps_its_board(board, dirichlet, value_decay, rounds, tree, eval, arith);
    lemma_concluded_moves(tree, arith, out);
}

/// What a tree shows are moves on its board.
proof fn lemma_concluded_moves<A: Arithmetic>(tree: Tree, arith: &A, out: Output)
    requires
        concluded(tree, arith, Some(out)),
    ensures
        out.policy@.len() == 121,
        out.values@.len() == 121,
        exists|n: int| 0 <= n < 121 && out.board_sample == #[trigger] tree.root_board.played(n),
        exists|n: int|
            is_last_max(f32_ranks(out.policy@), n) && out.board_best
                == #[trigger] tree.root_board.played(n),
{
    let (policy, sums, threshold) = choose|policy: Seq<F32>, sums: Seq<F32>, threshold: F32|
        #[trigger] drawn(tree, arith, policy, sums, threshold, Some(out));
    reveal(visit_policy);
    reveal(policy_totals);
    reveal(Output::shows);
    let sample = choose|sample: int|
        #[trigger] first_greater(sums, threshold, sample) && out.shows(tree, policy, sample);
    assert(out.board_sample == tree.root_board.played(sample));
    let best = choose|best: int|
        {
            &&& #[trigger] is_last_max(f32_ranks(policy), best)
            &&& out.board_best == tree.root_board.played(best)
            &&& out.value_best == value_of_action(tree.edges(), best)
        };
    assert(out.board_best == tree.root_board.played(best));
}

/// Every visit but the first goes to one of the moves: what a search ends with are shares of one
/// visit less than the monitor let it make.
pub proof fn every_later_visit_is_to_a_move<E: Evaluator, A: Arithmetic, M: Monitor>(
    board: Bitboard,
    dirichlet: F32,
    value_decay: F32,
    eval: &E,
    arith: &A,
    mon: &M,
    out: Option<Output>,
)
    requires
        searched(board, dirichlet, value_decay, eval, arith, mon, out),
    ensures
        exists|rounds: nat, tree: Tree|
            {
                &&& #[trigger] grown_to(board, dirichlet, value_decay, rounds, tree, eval, arith)
                &&& allowed(mon, rounds)
                &&& concluded(tree, arith, out)
                &&& total_visits(tree.edges()) == rounds - 1
            },
{
    let (rounds, tree) = choose|rounds: nat, tree: Tree|
        {
            &&& #[trigger] grown_to(board, dirichlet, value_decay, rounds, tree, eval, arith)
            &&& allowed(mon, rounds)
            &&& concluded(tree, arith, out)
        };
    a_tree_keeps_its_board(board, dirichlet, value_decay, rounds, tree, eval, arith);
}

/// Search from `board` until the monitor breaks. There is no output where no move can be drawn.
pub fn search<E: Evaluator, A: Arithmetic, M: Monitor>(
    eval: &E,
    arith: &A,
    board: Bitboard,
    dirichlet: F32,
    value_decay: F32,
    mon: &M,
) -> (out: Option<Output>)
    requires
        board.winner() is None,
        mon.listens(),
    ensures
        searched(board, dirichlet, value_decay, eval, arith, mon, out),
{
    let mut tree = Tree::new(board, dirichlet, value_decay);
    let ghost mut rounds: nat = 0;
    let mut running = true;
    while running
        invariant
            mon.listens(),
            tree.ok(),
            running ==> tree.root_visits < usize::MAX,
            !running ==> tree.root is Edges && rounds > 0,
            tree.root_visits == rounds,
            forall|n: usize|
                0 < n && (n < rounds || running && n == rounds) ==> #[trigger] answers(
                    mon,
                    n,
                    true,
                ),
            !running && rounds < usize::MAX ==> answers(mon, rounds as usize, false),
            grown(board, dirichlet, value_decay, rounds, tree, eval, arith),
        decreases usize::MAX - tree.root_visits,
    {
        let ghost before = tree;
        tree.step(eval, arith);
        proof {
            assert(before.stepped(tree, eval, arith));
            rounds = rounds + 1;
        }
        let flow = mon.defer(Stats { iters: tree.root_visits });
        assert(answers(mon, tree.root_visits, flow is Continue));
        match flow {
            ControlFlow::Continue(_) => {
                running = tree.root_visits < usize::MAX;
            },
            ControlFlow::Break(_) => {
                running = false;
            },
        }
    }
    let out = conclude(&tree, arith);
    assert(grown_to(board, dirichlet, value_decay, rounds, tree, eval, arith));
    out
}

} // verus!
