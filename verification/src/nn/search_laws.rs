//! What holds of every guided search, whoever is to move.

use vstd::prelude::*;
use crate::bb::Bitboard;
use crate::board_laws::moves_are_the_empty_cells;
use crate::nn::model::EvalResult;
use crate::nn::search::{
    a_tree_keeps_its_board, allowed, concluded, count_sums, decided_value, drawn, edge_score,
    edge_scores, f32_ranks, fresh_edge, fresh_edges, grown_to, legal_policy, policy_totals, ranks,
    searched, selected, total_visits, value_of_action, visit_counts, visit_policy, Arithmetic, Edge,
    Evaluator, Monitor, Node, Output, Tree,
};
use crate::util::{first_greater, is_last_max, F32, Finite};

verus! {

/// Whether of two moves that differ only in their value, the one with the higher value scores higher,
/// or lower where values are inverted.
pub open spec fn scores_by_value<A: Arithmetic>(arith: &A) -> bool {
    forall|
        inverted: bool,
        low: F32,
        high: F32,
        prior: F32,
        visits: usize,
        total: usize,
        a: Finite,
        b: Finite,
    |
        low.rank() < high.rank() && #[trigger] call_ensures(
            A::puct,
            (arith, inverted, low, prior, visits, total),
            a,
        ) && #[trigger] call_ensures(A::puct, (arith, inverted, high, prior, visits, total), b)
            ==> if inverted {
            a.rank() > b.rank()
        } else {
            a.rank() < b.rank()
        }
}

/// Whether scores are the same when all values change sign and are inverted.
pub open spec fn even_handed<A: Arithmetic>(arith: &A) -> bool {
    &&& forall|
        inverted: bool,
        value: F32,
        prior: F32,
        visits: usize,
        total: usize,
        score: Finite,
    | #[trigger]
        call_ensures(A::puct, (arith, inverted, value, prior, visits, total), score)
            ==> call_ensures(
            A::puct,
            (arith, !inverted, value.negated(), prior, visits, total),
            score,
        )
    &&& forall|inverted: bool, parent: F32, value: F32| #[trigger]
        call_ensures(A::first_play, (arith, inverted, parent), value) ==> call_ensures(
            A::first_play,
            (arith, !inverted, parent.negated()),
            value.negated(),
        )
}

/// Whether no move that was made as often, and that looked as good at first, is better than `i` for
/// sente; or for gote.
pub open spec fn none_is_better(edges: Seq<Edge>, i: int, for_sente: bool) -> bool {
    forall|j: int|
        0 <= j < edges.len() && edges[j].visits > 0 && edges[j].visits == edges[i].visits
            && edges[j].prior == edges[i].prior ==> if for_sente {
            (#[trigger] edges[j]).mean_value.rank() <= edges[i].mean_value.rank()
        } else {
            edges[j].mean_value.rank() >= edges[i].mean_value.rank()
        }
}

/// A high value is good for sente and bad for gote. A visit goes to a move that is best for the
/// player to move: sente's visits to the highest value, gote's to the lowest, of moves that are
/// otherwise alike.
pub proof fn a_visit_serves_the_player_to_move<E: Evaluator, A: Arithmetic>(
    before: Vec<Edge>,
    after: Node,
    eval: &E,
    arith: &A,
    value_decay: F32,
    board: Bitboard,
    parent_value: F32,
    back: F32,
)
    requires
        scores_by_value(arith),
        Node::Edges(before).stepped(
            after,
            eval,
            arith,
            value_decay,
            board,
            parent_value,
            back,
        ),
    ensures
        after matches Node::Edges(edges) && exists|i: int|
            {
                &&& 0 <= i < before@.len()
                &&& edges@ == before@.update(i, #[trigger] edges@[i])
                &&& edges@[i].action == before@[i].action
                &&& edges@[i].visits == before@[i].visits + 1
                &&& none_is_better(before@, i, board.black_next())
            },
{
    let edges = after->Edges_0;
    let i = choose|i: int|
        {
            &&& 0 <= i < before@.len()
            &&& #[trigger] selected(before@, arith, board, parent_value, i)
            &&& before@[i].stepped(edges@[i], eval, arith, value_decay, board, back)
            &&& edges@ == before@.update(i, edges@[i])
        };
    lemma_selected_is_best(before@, arith, board, parent_value, i);
    assert(edges@[i].visits == before@[i].visits + 1);
}

/// Of moves that are otherwise alike, the best for the player to move is selected.
proof fn lemma_selected_is_best<A: Arithmetic>(
    edges: Seq<Edge>,
    arith: &A,
    board: Bitboard,
    parent_value: F32,
    i: int,
)
    requires
        scores_by_value(arith),
        selected(edges, arith, board, parent_value, i),
        0 <= i < edges.len(),
    ensures
        none_is_better(edges, i, board.black_next()),
{
    let scores = choose|scores: Seq<Finite>|
        #[trigger] edge_scores(edges, arith, board, parent_value, scores) && is_last_max(
            ranks(scores),
            i,
        );
    assert forall|j: int|
        0 <= j < edges.len() && edges[j].visits > 0 && edges[j].visits == edges[i].visits
            && edges[j].prior == edges[i].prior implies if board.black_next() {
        (#[trigger] edges[j]).mean_value.rank() <= edges[i].mean_value.rank()
    } else {
        edges[j].mean_value.rank() >= edges[i].mean_value.rank()
    } by {
        let inverted = !board.black_next();
        let total = total_visits(edges) as usize;
        assert(edge_score(edges[i], arith, inverted, parent_value, total, scores[i]));
        assert(edge_score(edges[j], arith, inverted, parent_value, total, scores[j]));
        assert(call_ensures(
            A::puct,
            (
                arith,
                inverted,
                edges[i].mean_value,
                edges[i].prior,
                edges[i].visits,
                total,
            ),
            scores[i],
        ));
        assert(call_ensures(
            A::puct,
            (
                arith,
                inverted,
                edges[j].mean_value,
                edges[j].prior,
                edges[j].visits,
                total,
            ),
            scores[j],
        ));
        assert(ranks(scores)[j] <= ranks(scores)[i]);
    }
}

/// The players are treated alike: where the other player is to move and all values have the other
/// sign, the same move is selected.
pub proof fn the_players_are_treated_alike<A: Arithmetic>(
    edges: Seq<Edge>,
    turned: Seq<Edge>,
    arith: &A,
    board: Bitboard,
    other: Bitboard,
    parent_value: F32,
    i: int,
)
    requires
        even_handed(arith),
        other.black_next() == !board.black_next(),
        turned.len() == edges.len(),
        forall|j: int|
            0 <= j < edges.len() ==> {
                &&& (#[trigger] turned[j]).visits == edges[j].visits
                &&& turned[j].prior == edges[j].prior
                &&& turned[j].mean_value == edges[j].mean_value.negated()
            },
        selected(edges, arith, board, parent_value, i),
    ensures
        selected(turned, arith, other, parent_value.negated(), i),
{
    let scores = choose|scores: Seq<Finite>|
        #[trigger] edge_scores(edges, arith, board, parent_value, scores) && is_last_max(
            ranks(scores),
            i,
        );
    lemma_same_total(edges, turned);
    let total = total_visits(edges) as usize;
    assert forall|j: int| 0 <= j < turned.len() implies edge_score(
        turned[j],
        arith,
        !other.black_next(),
        parent_value.negated(),
        total,
        #[trigger] scores[j],
    ) by {
        assert(turned[j].visits == edges[j].visits);
        let inverted = !board.black_next();
        assert(edge_score(edges[j], arith, inverted, parent_value, total, scores[j]));
        let value = choose|value: F32|
            {
                &&& if edges[j].visits == 0 {
                    call_ensures(A::first_play, (arith, inverted, parent_value), value)
                } else {
                    value == edges[j].mean_value
                }
                &&& #[trigger] call_ensures(
                    A::puct,
                    (arith, inverted, value, edges[j].prior, edges[j].visits, total),
                    scores[j],
                )
            };
        assert(call_ensures(
            A::puct,
            (arith, !inverted, value.negated(), edges[j].prior, edges[j].visits, total),
            scores[j],
        ));
    }
    assert(edge_scores(turned, arith, other, parent_value.negated(), scores));
}

proof fn lemma_same_total(edges: Seq<Edge>, turned: Seq<Edge>)
    requires
        turned.len() == edges.len(),
        forall|j: int| 0 <= j < edges.len() ==> (#[trigger] turned[j]).visits == edges[j].visits,
    ensures
        total_visits(turned) == total_visits(edges),
    decreases edges.len(),
{
    if edges.len() > 0 {
        let (a, b) = (edges.drop_last(), turned.drop_last());
        assert forall|j: int| 0 <= j < a.len() implies (#[trigger] b[j]).visits == a[j].visits by {
            assert(turned[j].visits == edges[j].visits);
        }
        lemma_same_total(a, b);
        assert(turned[edges.len() - 1].visits == edges[edges.len() - 1].visits);
    }
}

/// A game that sente has won is worth more than one that is even, and one that gote has won less.
/// However often it is looked at, it stays won.
pub proof fn a_won_game_is_worth_it_to_the_winner<E: Evaluator, A: Arithmetic>(
    after: Node,
    later: Node,
    eval: &E,
    arith: &A,
    value_decay: F32,
    board: Bitboard,
    parent_value: F32,
    back: F32,
    back_later: F32,
)
    requires
        board.winner() is Some,
        Node::Leaf.stepped(after, eval, arith, value_decay, board, parent_value, back),
        after.stepped(later, eval, arith, value_decay, board, parent_value, back_later),
    ensures
        later == after,
        back_later == back,
        back.negated() == decided_value(board.winner() != Some(true)),
        board.winner() == Some(true) ==> back.rank() > F32(0).rank(),
        board.winner() == Some(false) ==> back.rank() < F32(0).rank(),
{
}

/// A visit to a move looks at the board after that move, and tells the moves there what this one was
/// worth so far. What it finds is added to what was found before, the value is the mean of all, and
/// what is passed up has decayed once.
pub proof fn a_visit_is_remembered_and_passed_up<E: Evaluator, A: Arithmetic>(
    before: Edge,
    after: Edge,
    eval: &E,
    arith: &A,
    value_decay: F32,
    board: Bitboard,
    back: F32,
)
    requires
        before.stepped(after, eval, arith, value_decay, board, back),
    ensures
        after.action == before.action,
        after.prior == before.prior,
        after.visits == before.visits + 1,
        exists|found: F32, count: F32|
            {
                &&& before.child.stepped(
                    after.child,
                    eval,
                    arith,
                    value_decay,
                    board.played(before.action as int),
                    before.mean_value,
                    found,
                )
                &&& call_ensures(A::sum, (arith, before.total_value, found), after.total_value)
                &&& #[trigger] call_ensures(A::count, (arith, after.visits), count)
                &&& call_ensures(
                    A::quotient,
                    (arith, after.total_value, count),
                    after.mean_value,
                )
                &&& #[trigger] call_ensures(A::decay, (arith, found, value_decay), back)
            },
{
}

/// A move that wins the game is recognized by the first visit to it: it is worth what the game is
/// worth to the winner.
pub proof fn a_winning_move_is_recognized<E: Evaluator, A: Arithmetic>(
    before: Edge,
    after: Edge,
    eval: &E,
    arith: &A,
    value_decay: F32,
    board: Bitboard,
    back: F32,
)
    requires
        before.stepped(after, eval, arith, value_decay, board, back),
        before.child is Leaf,
        board.played(before.action as int).winner() is Some,
    ensures
        exists|found: F32|
            {
                &&& after.child == Node::Terminal(found)
                &&& #[trigger] call_ensures(
                    A::sum,
                    (arith, before.total_value, found),
                    after.total_value,
                )
                &&& board.played(before.action as int).winner() == Some(true) ==> found.rank()
                    > F32(0).rank()
                &&& board.played(before.action as int).winner() == Some(false) ==> found.rank()
                    < F32(0).rank()
            },
{
}

/// The first visit to a board asks the evaluator about that very board, passes its value up, and
/// makes a move of each empty cell, whose prior is the evaluator's number for that cell in
/// proportion to those of all empty cells.
pub proof fn the_first_visit_asks_the_evaluator<E: Evaluator, A: Arithmetic>(
    after: Node,
    eval: &E,
    arith: &A,
    value_decay: F32,
    board: Bitboard,
    parent_value: F32,
    back: F32,
)
    requires
        board.winner() is None,
        Node::Leaf.stepped(after, eval, arith, value_decay, board, parent_value, back),
    ensures
        after matches Node::Edges(edges) && exists|said: EvalResult, legal: Vec<F32>, whole: F32|
            {
                &&& #[trigger] call_ensures(E::call, (eval, board), said)
                &&& back == said.value
                &&& #[trigger] call_ensures(A::denominator, (arith, &legal), whole)
                &&& legal@.len() == edges@.len()
                &&& forall|i: int|
                    0 <= i < edges@.len() ==> {
                        &&& (#[trigger] edges@[i]).action < 121
                        &&& board.stone(edges@[i].action as int) is None
                        &&& legal@[i] == said.policy@[edges@[i].action as int]
                        &&& call_ensures(A::quotient, (arith, legal@[i], whole), edges@[i].prior)
                        &&& edges@[i].visits == 0
                        &&& edges@[i].child is Leaf
                    }
                &&& forall|n: int|
                    0 <= n < 121 && board.stone(n) is None ==> exists|i: int|
                        0 <= i < edges@.len() && (#[trigger] edges@[i]).action == n
            },
{
    let edges = after->Edges_0;
    let said = choose|said: EvalResult|
        #[trigger] call_ensures(E::call, (eval, board), said) && back == said.value && fresh_edges(
            edges@,
            board,
            said.policy@,
            arith,
        );
    let moves = board.moves_below(121);
    moves_are_the_empty_cells(board, 121);
    let (legal, whole) = choose|legal: Vec<F32>, whole: F32|
        {
            &&& legal@ == legal_policy(board, said.policy@)
            &&& #[trigger] call_ensures(A::denominator, (arith, &legal), whole)
            &&& edges@.len() == moves.len()
            &&& forall|i: int|
                0 <= i < edges@.len() ==> fresh_edge(
                    #[trigger] edges@[i],
                    moves[i].0,
                    said.policy@,
                    whole,
                    arith,
                )
        };
    assert forall|i: int| 0 <= i < edges@.len() implies {
        &&& (#[trigger] edges@[i]).action < 121
        &&& board.stone(edges@[i].action as int) is None
        &&& legal@[i] == said.policy@[edges@[i].action as int]
        &&& call_ensures(A::quotient, (arith, legal@[i], whole), edges@[i].prior)
        &&& edges@[i].visits == 0
        &&& edges@[i].child is Leaf
    } by {
        assert(fresh_edge(edges@[i], moves[i].0, said.policy@, whole, arith));
        let (m, child) = moves[i];
    }
    assert forall|n: int| 0 <= n < 121 && board.stone(n) is None implies exists|i: int|
        0 <= i < edges@.len() && (#[trigger] edges@[i]).action == n by {
        assert(moves.contains((n as usize, board.played(n))));
        let i = choose|i: int| 0 <= i < moves.len() && moves[i] == (n as usize, board.played(n));
        assert(fresh_edge(edges@[i], moves[i].0, said.policy@, whole, arith));
    }
    assert(call_ensures(E::call, (eval, board), said));
    assert(call_ensures(A::denominator, (arith, &legal), whole));
}

/// Whether each cell gets its share of the visits: a cell that was moved to, the number of its
/// visits divided by the same total; one that was not, nothing divided by it.
pub open spec fn shares_of<A: Arithmetic>(
    edges: Seq<Edge>,
    policy: Seq<F32>,
    arith: &A,
    total: F32,
) -> bool {
    &&& policy.len() == 121
    &&& forall|i: int|
        0 <= i < edges.len() ==> share_of(
            arith,
            (#[trigger] edges[i]).visits,
            total,
            policy[edges[i].action as int],
        )
    &&& forall|n: int|
        0 <= n < 121 && (forall|i: int| 0 <= i < edges.len() ==> (#[trigger] edges[i]).action != n)
            ==> call_ensures(A::quotient, (arith, F32(0), total), #[trigger] policy[n])
}

/// Whether the total is that of the visits to all moves, added up one by one from nothing.
pub open spec fn adds_up<A: Arithmetic>(edges: Seq<Edge>, arith: &A, total: F32) -> bool {
    exists|sums: Seq<F32>|
        {
            &&& #[trigger] sums.len() == edges.len() + 1
            &&& sums.first() == F32(0)
            &&& sums.last() == total
            &&& forall|i: int|
                0 <= i < edges.len() ==> is_added(
                    arith,
                    sums[i],
                    (#[trigger] edges[i]).visits,
                    sums[i + 1],
                )
        }
}

/// Whether a sum is another one and a number of visits.
pub open spec fn is_added<A: Arithmetic>(arith: &A, before: F32, visits: usize, sum: F32) -> bool {
    exists|count: F32|
        #[trigger] call_ensures(A::count, (arith, visits), count) && call_ensures(
            A::sum,
            (arith, before, count),
            sum,
        )
}

/// Whether a share is a number of visits divided by a total.
pub open spec fn share_of<A: Arithmetic>(arith: &A, visits: usize, total: F32, share: F32) -> bool {
    exists|count: F32|
        #[trigger] call_ensures(A::count, (arith, visits), count) && call_ensures(
            A::quotient,
            (arith, count, total),
            share,
        )
}

/// Whether the output shows the tree: each cell's share of the visits and value, the board after a
/// move whose share is the greatest, with the value of that move, and the board after a move that was
/// drawn, with the value of that one.
pub open spec fn shows_tree<A: Arithmetic>(out: Output, tree: Tree, arith: &A) -> bool {
    &&& exists|total: F32|
        #[trigger] shares_of(tree.edges(), out.policy@, arith, total) && adds_up(
            tree.edges(),
            arith,
            total,
        )
    &&& out.values@.len() == 121
    &&& forall|i: int|
        0 <= i < tree.edges().len() ==> out.values@[(#[trigger] tree.edges()[i]).action as int]
            == tree.edges()[i].mean_value
    &&& exists|best: int|
        {
            &&& 0 <= best < 121
            &&& #[trigger] tree.root_board.played(best) == out.board_best
            &&& forall|n: int|
                0 <= n < 121 ==> (#[trigger] out.policy@[n]).rank() <= out.policy@[best].rank()
            &&& forall|i: int|
                0 <= i < tree.edges().len() && (#[trigger] tree.edges()[i]).action == best
                    ==> out.value_best == tree.edges()[i].mean_value
        }
    &&& exists|drawn: int|
        {
            &&& 0 <= drawn < 121
            &&& is_drawn(out.policy@, arith, drawn)
            &&& #[trigger] tree.root_board.played(drawn) == out.board_sample
            &&& forall|i: int|
                0 <= i < tree.edges().len() && (#[trigger] tree.edges()[i]).action == drawn
                    ==> out.value_sample == tree.edges()[i].mean_value
        }
}

/// Whether a cell is drawn by the shares: the first at which the shares, added up one by one, are
/// greater than the part of their total that the arithmetic has drawn.
pub open spec fn is_drawn<A: Arithmetic>(shares: Seq<F32>, arith: &A, cell: int) -> bool {
    exists|sums: Seq<F32>, part: F32|
        {
            &&& #[trigger] sums.len() == shares.len()
            &&& sums[0] == shares[0]
            &&& forall|k: int|
                1 <= k < shares.len() ==> call_ensures(
                    A::sum,
                    (arith, sums[k - 1], shares[k]),
                    #[trigger] sums[k],
                )
            &&& #[trigger] call_ensures(A::threshold, (arith, sums.last()), part)
            &&& sums[cell].rank() > part.rank()
            &&& forall|k: int|
                0 <= k < cell ==> (#[trigger] sums[k]).nan() || sums[k].rank() <= part.rank()
        }
}

/// What a search ends with shows the tree that it has grown on its board.
pub proof fn a_search_shows_its_tree<E: Evaluator, A: Arithmetic, M: Monitor>(
    eval: &E,
    arith: &A,
    board: Bitboard,
    dirichlet: F32,
    value_decay: F32,
    mon: &M,
    out: Output,
)
    requires
        searched(board, dirichlet, value_decay, eval, arith, mon, Some(out)),
    ensures
        exists|rounds: nat, tree: Tree|
            {
                &&& #[trigger] grown_to(board, dirichlet, value_decay, rounds, tree, eval, arith)
                &&& tree.root_board == board
                &&& shows_tree(out, tree, arith)
            },
{
    let (rounds, tree) = choose|rounds: nat, tree: Tree|
        {
            &&& #[trigger] grown_to(board, dirichlet, value_decay, rounds, tree, eval, arith)
            &&& allowed(mon, rounds)
            &&& concluded(tree, arith, Some(out))
        };
    a_tree_keeps_its_board(board, dirichlet, value_decay, rounds, tree, eval, arith);
    lemma_actions(tree);
    lemma_shows(tree, arith, out);
}

/// The moves of a tree are different cells.
spec fn distinct_cells(edges: Seq<Edge>) -> bool {
    &&& forall|i: int| 0 <= i < edges.len() ==> (#[trigger] edges[i]).action < 121
    &&& forall|i: int, j: int|
        0 <= i < j < edges.len() ==> (#[trigger] edges[i]).action != (#[trigger] edges[j]).action
}

proof fn lemma_actions(tree: Tree)
    requires
        tree.ok(),
    ensures
        distinct_cells(tree.edges()),
{
    moves_are_the_empty_cells(tree.root_board, 121);
    let edges = tree.edges();
    let moves = tree.root_board.moves_below(121);
    if tree.root is Edges {
        assert forall|i: int| 0 <= i < edges.len() implies (#[trigger] edges[i]).action
            == moves[i].0 && moves[i].0 < 121 by {
            let (m, child) = moves[i];
        }
    }
}

proof fn lemma_value_of(edges: Seq<Edge>, i: int)
    requires
        distinct_cells(edges),
        0 <= i < edges.len(),
    ensures
        value_of_action(edges, edges[i].action as int) == edges[i].mean_value,
    decreases edges.len(),
{
    if i > 0 {
        let rest = edges.drop_first();
        assert(edges[0].action != edges[i].action);
        assert forall|j: int| 0 <= j < rest.len() implies (#[trigger] rest[j]).action < 121 by {
            assert(edges[j + 1].action < 121);
        }
        assert forall|j: int, k: int| 0 <= j < k < rest.len() implies (#[trigger] rest[j]).action
            != (#[trigger] rest[k]).action by {
            assert(edges[j + 1].action != edges[k + 1].action);
        }
        lemma_value_of(rest, i - 1);
        assert(rest[i - 1] == edges[i]);
    }
}

#[verifier::rlimit(40)]
proof fn lemma_shows<A: Arithmetic>(tree: Tree, arith: &A, out: Output)
    requires
        concluded(tree, arith, Some(out)),
        distinct_cells(tree.edges()),
    ensures
        shows_tree(out, tree, arith),
{
    let edges = tree.edges();
    let (policy, sums, threshold) = choose|policy: Seq<F32>, sums: Seq<F32>, threshold: F32|
        #[trigger] drawn(tree, arith, policy, sums, threshold, Some(out));
    reveal(visit_policy);
    reveal(policy_totals);
    reveal(Output::shows);
    let sample = choose|sample: int|
        #[trigger] first_greater(sums, threshold, sample) && out.shows(tree, policy, sample);
    let best = choose|best: int|
        {
            &&& #[trigger] is_last_max(f32_ranks(policy), best)
            &&& out.board_best == tree.root_board.played(best)
            &&& out.value_best == value_of_action(edges, best)
        };
    lemma_shares(edges, policy, arith);
    assert forall|n: int| 0 <= n < 121 implies (#[trigger] out.policy@[n]).rank()
        <= out.policy@[best].rank() by {
        assert(f32_ranks(policy)[n] <= f32_ranks(policy)[best]);
    }
    assert forall|i: int| 0 <= i < edges.len() && (#[trigger] edges[i]).action == best implies
        out.value_best == edges[i].mean_value by {
        lemma_value_of(edges, i);
    }
    assert forall|i: int| 0 <= i < edges.len() && (#[trigger] edges[i]).action == sample implies
        out.value_sample == edges[i].mean_value by {
        lemma_value_of(edges, i);
    }
    assert(sums.len() == policy.len());
    assert(is_drawn(out.policy@, arith, sample));
    assert(tree.root_board.played(best) == out.board_best);
    assert(tree.root_board.played(sample) == out.board_sample);
}

proof fn lemma_shares<A: Arithmetic>(edges: Seq<Edge>, policy: Seq<F32>, arith: &A)
    requires
        distinct_cells(edges),
        visit_policy(edges, policy, arith),
    ensures
        exists|total: F32|
            #[trigger] shares_of(edges, policy, arith, total) && adds_up(edges, arith, total),
{
    reveal(visit_policy);
    let (counts, sums) = choose|counts: Seq<F32>, sums: Seq<F32>|
        {
            &&& visit_counts(edges, counts, arith)
            &&& #[trigger] count_sums(edges, counts, sums, arith)
            &&& policy.len() == 121
            &&& forall|n: int|
                0 <= n < 121 ==> call_ensures(
                    A::quotient,
                    (arith, counts[n], sums.last()),
                    #[trigger] policy[n],
                )
        };
    let total = sums.last();
    assert forall|i: int| 0 <= i < edges.len() implies share_of(
        arith,
        (#[trigger] edges[i]).visits,
        total,
        policy[edges[i].action as int],
    ) by {
        let n = edges[i].action as int;
        assert(call_ensures(A::quotient, (arith, counts[n], total), policy[n]));
        assert(call_ensures(A::count, (arith, edges[i].visits), counts[n]));
    }
    assert forall|n: int|
        0 <= n < 121 && (forall|i: int|
            0 <= i < edges.len() ==> (#[trigger] edges[i]).action != n) implies call_ensures(
        A::quotient,
        (arith, F32(0), total),
        #[trigger] policy[n],
    ) by {
        assert(counts[n] == F32(0));
        assert(call_ensures(A::quotient, (arith, counts[n], total), policy[n]));
    }
    assert(shares_of(edges, policy, arith, total));
    assert forall|i: int| 0 <= i < edges.len() implies is_added(
        arith,
        sums[i],
        (#[trigger] edges[i]).visits,
        sums[i + 1],
    ) by {
        let n = edges[i].action as int;
        assert(call_ensures(A::count, (arith, edges[i].visits), counts[n]));
    }
    assert(sums.len() == edges.len() + 1);
    assert(adds_up(edges, arith, total));
}

/// Noise is mixed into the priors at the root by the first visit alone, and only where some is asked
/// for and there is a choice. It changes nothing but the priors.
pub proof fn noise_is_mixed_in_once<E: Evaluator, A: Arithmetic>(
    before: Tree,
    after: Tree,
    eval: &E,
    arith: &A,
)
    requires
        before.stepped(after, eval, arith),
    ensures
        before.root is Edges && before.root_visits > 0 ==> {
            &&& after.edges().len() == before.edges().len()
            &&& forall|i: int|
                0 <= i < before.edges().len() ==> (#[trigger] after.edges()[i]).prior
                    == before.edges()[i].prior
        },
        before.root_visits == 0 ==> exists|visited: Node, back: F32|
            {
                &&& #[trigger] before.root.stepped(
                    visited,
                    eval,
                    arith,
                    before.value_decay,
                    before.root_board,
                    before.root_mean_value,
                    back,
                )
                &&& visited matches Node::Edges(edges) ==> {
                    &&& edges@.len() < 2 || before.dirichlet.nan() || before.dirichlet.rank()
                        <= F32(0).rank() ==> after.root == visited
                    &&& edges@.len() >= 2 && !before.dirichlet.nan() && before.dirichlet.rank()
                        > F32(0).rank() ==> mixed_with_noise(
                        edges@,
                        after.edges(),
                        before.dirichlet,
                        arith,
                    )
                }
            },
{
    if before.root is Edges && before.root_visits > 0 {
        let (visited, back) = choose|visited: Node, back: F32|
            #[trigger] before.root.stepped(
                visited,
                eval,
                arith,
                before.value_decay,
                before.root_board,
                before.root_mean_value,
                back,
            ) && after.root == visited;
        let (old_edges, edges) = (before.edges(), after.edges());
        let i = choose|i: int|
            {
                &&& 0 <= i < old_edges.len()
                &&& #[trigger] selected(
                    old_edges,
                    arith,
                    before.root_board,
                    before.root_mean_value,
                    i,
                )
                &&& old_edges[i].stepped(
                    edges[i],
                    eval,
                    arith,
                    before.value_decay,
                    before.root_board,
                    back,
                )
                &&& edges == old_edges.update(i, edges[i])
            };
        assert(edges[i].prior == old_edges[i].prior);
    }
}

/// Whether each move is as it was but for its prior, which has as much noise mixed in as was asked
/// for.
pub open spec fn mixed_with_noise<A: Arithmetic>(
    before: Seq<Edge>,
    after: Seq<Edge>,
    dirichlet: F32,
    arith: &A,
) -> bool {
    &&& after.len() == before.len()
    &&& exists|noise: Vec<F32>|
        {
            &&& #[trigger] call_ensures(A::noise, (arith, before.len() as usize), noise)
            &&& forall|i: int|
                0 <= i < before.len() ==> {
                    &&& (#[trigger] after[i]).action == before[i].action
                    &&& after[i].visits == before[i].visits
                    &&& after[i].mean_value == before[i].mean_value
                    &&& after[i].child == before[i].child
                    &&& i < noise@.len() ==> call_ensures(
                        A::mixed,
                        (arith, before[i].prior, noise@[i], dirichlet),
                        after[i].prior,
                    )
                }
        }
}

/// The value of the root is the mean of all that its visits have found.
pub proof fn the_root_is_worth_the_mean<E: Evaluator, A: Arithmetic>(
    before: Tree,
    after: Tree,
    eval: &E,
    arith: &A,
)
    requires
        before.stepped(after, eval, arith),
    ensures
        after.root_visits == before.root_visits + 1,
        exists|visited: Node, found: F32, count: F32|
            {
                &&& #[trigger] before.root.stepped(
                    visited,
                    eval,
                    arith,
                    before.value_decay,
                    before.root_board,
                    before.root_mean_value,
                    found,
                )
                &&& call_ensures(
                    A::sum,
                    (arith, before.root_total_value, found),
                    after.root_total_value,
                )
                &&& #[trigger] call_ensures(A::count, (arith, after.root_visits), count)
                &&& call_ensures(
                    A::quotient,
                    (arith, after.root_total_value, count),
                    after.root_mean_value,
                )
            },
{
}

/// Whether a move deserves this score, from the view of the player to move: by its mean value once it
/// has been visited, and before that by what the arithmetic makes of the value of the board it is made
/// on; and by its prior, by how often it was visited, and how often all moves were.
pub open spec fn deserves<A: Arithmetic>(
    edge: Edge,
    arith: &A,
    sente_moves: bool,
    board_value: F32,
    all_visits: usize,
    score: Finite,
) -> bool {
    &&& edge.visits > 0 ==> call_ensures(
        A::puct,
        (arith, !sente_moves, edge.mean_value, edge.prior, edge.visits, all_visits),
        score,
    )
    &&& edge.visits == 0 ==> deserves_a_try(
        arith,
        !sente_moves,
        board_value,
        edge.prior,
        all_visits,
        score,
    )
}

/// Whether a move that was never visited deserves this score, values being inverted or not.
pub open spec fn deserves_a_try<A: Arithmetic>(
    arith: &A,
    inverted: bool,
    board_value: F32,
    prior: F32,
    all_visits: usize,
    score: Finite,
) -> bool {
    exists|value: F32|
        {
            &&& #[trigger] call_ensures(A::first_play, (arith, inverted, board_value), value)
            &&& call_ensures(A::puct, (arith, inverted, value, prior, 0usize, all_visits), score)
        }
}

/// A visit goes to a move that deserves it most.
pub proof fn a_visit_goes_where_it_is_deserved<E: Evaluator, A: Arithmetic>(
    before: Vec<Edge>,
    after: Node,
    eval: &E,
    arith: &A,
    value_decay: F32,
    board: Bitboard,
    parent_value: F32,
    back: F32,
)
    requires
        Node::Edges(before).stepped(
            after,
            eval,
            arith,
            value_decay,
            board,
            parent_value,
            back,
        ),
    ensures
        after matches Node::Edges(edges) && exists|i: int, scores: Seq<Finite>|
            {
                &&& 0 <= i < before@.len()
                &&& edges@ == before@.update(i, #[trigger] edges@[i])
                &&& #[trigger] scores.len() == before@.len()
                &&& forall|j: int|
                    0 <= j < before@.len() ==> (#[trigger] scores[j]).rank() <= scores[i].rank()
                &&& forall|j: int|
                    0 <= j < before@.len() ==> deserves(
                        before@[j],
                        arith,
                        board.black_next(),
                        parent_value,
                        total_visits(before@) as usize,
                        #[trigger] scores[j],
                    )
            },
{
    let edges = after->Edges_0;
    let i = choose|i: int|
        {
            &&& 0 <= i < before@.len()
            &&& #[trigger] selected(before@, arith, board, parent_value, i)
            &&& before@[i].stepped(edges@[i], eval, arith, value_decay, board, back)
            &&& edges@ == before@.update(i, edges@[i])
        };
    let scores = choose|scores: Seq<Finite>|
        #[trigger] edge_scores(before@, arith, board, parent_value, scores) && is_last_max(
            ranks(scores),
            i,
        );
    assert forall|j: int| 0 <= j < before@.len() implies (#[trigger] scores[j]).rank()
        <= scores[i].rank() by {
        assert(ranks(scores)[j] <= ranks(scores)[i]);
    }
    assert forall|j: int| 0 <= j < before@.len() implies deserves(
        before@[j],
        arith,
        board.black_next(),
        parent_value,
        total_visits(before@) as usize,
        #[trigger] scores[j],
    ) by {
        assert(edge_score(
            before@[j],
            arith,
            !board.black_next(),
            parent_value,
            total_visits(before@) as usize,
            scores[j],
        ));
    }
    assert(edges@ == before@.update(i, edges@[i]));
    assert(scores.len() == before@.len());
}

} // verus!
