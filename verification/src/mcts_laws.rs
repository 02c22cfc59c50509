//! What holds of every tree search with random games, whoever is to move.

use vstd::prelude::*;
use crate::bb::{
    can_be_drawn, picked_at_random, picks_fit, played_out, pos, rollout_black, stones, Bitboard,
    ExactMcts,
};
use crate::bits::has_bit;
use crate::board_laws::{
    a_game_keeps_count, a_playout_fills_the_board, a_rollout_is_decisive,
    at_most_one_side_connects, reachable,
};
use crate::hex::{edges_mono, left_right};
use crate::mcts;
use crate::mcts2;
use crate::mcts2::{grown_to, searched, MctsBackprop, MctsMonitor, MctsNode, MctsState};
use crate::util::{is_last_max, last_max_is_unique, Finite};

verus! {

/// Whether of two children with as many games, the one with more wins scores higher.
pub open spec fn scores_by_wins<F: Fn(u32, u32, u32) -> Finite>(score: F) -> bool {
    forall|few: u32, many: u32, sims: u32, total: u32, a: Finite, b: Finite|
        few < many && #[trigger] call_ensures(score, (few, sims, total), a)
            && #[trigger] call_ensures(score, (many, sims, total), b) ==> a.rank() < b.rank()
}

/// Whether no child with as many games is better than `i` for sente; or for gote. The wins that are
/// counted are sente's.
pub open spec fn none_is_better<'a, S>(
    nodes: Seq<MctsNode<'a, S>>,
    i: int,
    for_sente: bool,
) -> bool {
    forall|j: int|
        0 <= j < nodes.len() && nodes[j].num_sims == nodes[i].num_sims && nodes[j].num_wins
            <= nodes[j].num_sims && nodes[i].num_wins <= nodes[i].num_sims ==> if for_sente {
            (#[trigger] nodes[j]).num_wins <= nodes[i].num_wins
        } else {
            nodes[j].num_wins >= nodes[i].num_wins
        }
}

/// Whether an iteration has changed only this child.
pub open spec fn only_child_changed<'a, S: MctsState>(
    before: MctsNode<'a, S>,
    after: MctsNode<'a, S>,
    i: int,
) -> bool {
    &&& 0 <= i < before.below().len()
    &&& after.below() == before.below().update(i, after.below()[i])
}

/// An iteration goes down to a child that is best for the player to move, of those with as many
/// games: for sente one with most of sente's wins, for gote one with fewest. At that child the other
/// player is to move, and is served in turn.
pub proof fn an_iteration_serves_the_player_to_move<
    'a,
    S: MctsState,
    F: Fn(u32, u32, u32) -> Finite,
>(
    before: MctsNode<'a, S>,
    after: MctsNode<'a, S>,
    back: MctsBackprop,
    sente: bool,
    score: F,
)
    requires
        scores_by_wins(score),
        before.iterated(after, back, sente, score),
        before.terminal is None,
        before.children is Some,
    ensures
        exists|i: int|
            {
                &&& #[trigger] only_child_changed(before, after, i)
                &&& none_is_better(before.below(), i, sente)
                &&& before.below()[i].terminal is None && before.below()[i].children is Some
                    ==> exists|j: int|
                    {
                        &&& #[trigger] only_child_changed(before.below()[i], after.below()[i], j)
                        &&& none_is_better(before.below()[i].below(), j, !sente)
                    }
            },
{
    let i = choose|i: int|
        #![trigger after.below()[i]]
        {
            &&& 0 <= i < before.below().len()
            &&& mcts2::selected(before.below(), sente, before.num_sims, score, i)
            &&& after.below() == before.below().update(i, after.below()[i])
            &&& before.below()[i].num_sims < before.num_sims
            &&& before.below()[i].iterated(
                after.below()[i],
                MctsBackprop { depth: (back.depth - 1) as usize, ..back },
                !sente,
                score,
            )
        };
    assert(only_child_changed(before, after, i));
    lemma_selected_is_best(before.below(), sente, before.num_sims, score, i);
    let (child, grown) = (before.below()[i], after.below()[i]);
    if child.terminal is None && child.children is Some {
        let j = choose|j: int|
            #![trigger grown.below()[j]]
            {
                &&& 0 <= j < child.below().len()
                &&& mcts2::selected(child.below(), !sente, child.num_sims, score, j)
                &&& grown.below() == child.below().update(j, grown.below()[j])
                &&& child.below()[j].num_sims < child.num_sims
                &&& child.below()[j].iterated(
                    grown.below()[j],
                    MctsBackprop {
                        depth: ((back.depth - 1) as usize - 1) as usize,
                        ..back
                    },
                    sente,
                    score,
                )
            };
        assert(only_child_changed(child, grown, j));
        lemma_selected_is_best(child.below(), !sente, child.num_sims, score, j);
    }
}

proof fn lemma_selected_is_best<'a, S, F: Fn(u32, u32, u32) -> Finite>(
    nodes: Seq<MctsNode<'a, S>>,
    sente: bool,
    total: u32,
    score: F,
    i: int,
)
    requires
        scores_by_wins(score),
        mcts2::selected(nodes, sente, total, score, i),
        0 <= i < nodes.len(),
    ensures
        none_is_better(nodes, i, sente),
{
    let scores = choose|scores: Seq<Finite>|
        #[trigger] mcts2::scored(nodes, sente, total, score, scores) && is_last_max(
            mcts2::ranks(scores),
            i,
        );
    assert forall|j: int|
        0 <= j < nodes.len() && nodes[j].num_sims == nodes[i].num_sims && nodes[j].num_wins
            <= nodes[j].num_sims && nodes[i].num_wins <= nodes[i].num_sims implies if sente {
        (#[trigger] nodes[j]).num_wins <= nodes[i].num_wins
    } else {
        nodes[j].num_wins >= nodes[i].num_wins
    } by {
        assert(mcts2::ranks(scores)[j] <= mcts2::ranks(scores)[i]);
        assert(call_ensures(
            score,
            (nodes[i].wins_for(sente), nodes[i].num_sims, total),
            scores[i],
        ));
        assert(call_ensures(
            score,
            (nodes[j].wins_for(sente), nodes[j].num_sims, total),
            scores[j],
        ));
    }
}

/// The wins that are counted are sente's: a game that sente has won adds only wins, and one that
/// gote has won adds none.
pub proof fn wins_are_those_of_sente<'a, S: MctsState, F: Fn(u32, u32, u32) -> Finite>(
    before: MctsNode<'a, S>,
    after: MctsNode<'a, S>,
    back: MctsBackprop,
    sente: bool,
    score: F,
)
    requires
        before.iterated(after, back, sente, score),
        before.terminal is Some,
    ensures
        back.num_sims > 0,
        before.terminal == Some(true) ==> after.num_wins - before.num_wins == after.num_sims
            - before.num_sims,
        before.terminal == Some(false) ==> after.num_wins == before.num_wins,
        after.num_sims == before.num_sims + back.num_sims,
{
}

/// A random game from a board that is decided ends as the board was decided.
pub proof fn a_decided_board_stays_decided(
    board: Bitboard,
    node: MctsNode<'_, Bitboard>,
    exact: MctsNode<'_, ExactMcts>,
)
    requires
        board.wf(),
        board.winner() is Some,
        node.fresh(board),
        exact.fresh(ExactMcts(board)),
    ensures
        node.num_sims == 1,
        exact.num_sims == 1,
        board.winner() == Some(true) ==> node.num_wins == 1 && exact.num_wins == 1,
        board.winner() == Some(false) ==> node.num_wins == 0 && exact.num_wins == 0,
{
    let won = node.num_wins == 1;
    assert(MctsState::may_end(&board, won));
    let mask = choose|mask: u128|
        can_be_drawn(mask) && won == left_right(#[trigger] rollout_black(board, mask));
    a_rollout_is_decisive(board, mask);
    let won_exactly = exact.num_wins == 1;
    assert(MctsState::may_end(&ExactMcts(board), won_exactly));
    let picks = choose|picks: Seq<usize>|
        picks_fit(board, picks) && picked_at_random(picks) && won_exactly == left_right(
            stones((#[trigger] played_out(board, picks)).black),
        );
    a_playout_fills_the_board(board, picks);
    lemma_stones_kept(board, played_out(board, picks));
}

/// A board on which all stones of another stand was won by the same player, if that one was.
proof fn lemma_stones_kept(before: Bitboard, after: Bitboard)
    requires
        before.wf(),
        after.wf(),
        before.winner() is Some,
        forall|n: int|
            0 <= n < 121 && before.stone(n) is Some ==> #[trigger] after.stone(n)
                == before.stone(n),
    ensures
        after.winner() == before.winner(),
{
    assert forall|p: (int, int)| stones(before.black)(p) implies #[trigger] stones(after.black)(
        p,
    ) by {
        let n = 11 * p.0 + p.1;
        assert(before.stone(n) == Some(true));
        assert(after.stone(n) == Some(true));
    }
    assert forall|p: (int, int)| stones(before.white)(p) implies #[trigger] stones(after.white)(
        p,
    ) by {
        let n = 11 * p.0 + p.1;
        assert(!(has_bit(before.black, pos(p)) && has_bit(before.white, pos(p))));
        assert(before.stone(n) == Some(false));
        assert(after.stone(n) == Some(false));
    }
    edges_mono(stones(before.black), stones(after.black));
    edges_mono(stones(before.white), stones(after.white));
    at_most_one_side_connects(before);
    at_most_one_side_connects(after);
}

/// A search on a board that a game has reached serves the player whose turn it is on that board.
pub proof fn a_search_serves_the_player_to_move<
    M: MctsMonitor<Bitboard>,
    F: Fn(u32, u32, u32) -> Finite,
>(board: Bitboard, depth: usize, score: F, before: M, after: M, best: Bitboard)
    requires
        reachable(board, depth as nat),
        searched(board, depth, score, before, after, best),
    ensures
        exists|rounds: nat, root: MctsNode<'_, Bitboard>|
            #[trigger] grown_to(board, rounds, root, board.black_next(), score) && root.picks(best),
{
    a_game_keeps_count(board, depth as nat);
}

/// A search at an even depth serves sente, and one at an odd depth gote.
pub proof fn turns_alternate<S: MctsState, M: MctsMonitor<S>, F: Fn(u32, u32, u32) -> Finite>(
    state: S,
    depth: usize,
    score: F,
    before: M,
    after: M,
    best: S,
)
    requires
        searched(state, depth, score, before, after, best),
    ensures
        depth % 2 == 0 ==> exists|rounds: nat, root: MctsNode<'_, S>|
            #[trigger] grown_to(state, rounds, root, true, score) && root.picks(best),
        depth % 2 == 1 ==> exists|rounds: nat, root: MctsNode<'_, S>|
            #[trigger] grown_to(state, rounds, root, false, score) && root.picks(best),
{
}

/// No move was looked into more often than the one that a search ends with.
pub proof fn the_best_is_visited_most<'a, S: MctsState>(root: MctsNode<'a, S>, best: S, j: int)
    requires
        root.picks(best),
        0 <= j < root.below().len(),
    ensures
        exists|i: int|
            {
                &&& 0 <= i < root.below().len()
                &&& (#[trigger] root.below()[i]).state == best
                &&& root.below()[i].num_sims >= root.below()[j].num_sims
            },
{
    let i = choose|i: int|
        is_last_max(mcts2::sims_of(root.below()), i) && best == #[trigger] root.below()[i].state;
    assert(mcts2::sims_of(root.below())[j] <= mcts2::sims_of(root.below())[i]);
}

/// Whether of two children with as many games, the one with more wins scores higher.
pub open spec fn rates_by_wins<F: Fn(usize, usize, usize) -> Finite>(score: F) -> bool {
    forall|few: usize, many: usize, rollouts: usize, total: usize, a: Finite, b: Finite|
        few < many && #[trigger] call_ensures(score, (few, rollouts, total), a)
            && #[trigger] call_ensures(score, (many, rollouts, total), b) ==> a.rank() < b.rank()
}

/// Whether no child with as many games is better than `i` for sente; or for gote.
pub open spec fn none_does_better<S>(
    nodes: Seq<mcts::MctsNode<S>>,
    i: int,
    for_sente: bool,
) -> bool {
    forall|j: int|
        0 <= j < nodes.len() && nodes[j].rollouts == nodes[i].rollouts && nodes[j].sente_wins
            <= nodes[j].rollouts && nodes[i].sente_wins <= nodes[i].rollouts ==> if for_sente {
            (#[trigger] nodes[j]).sente_wins <= nodes[i].sente_wins
        } else {
            nodes[j].sente_wins >= nodes[i].sente_wins
        }
}

proof fn lemma_rated_best<S, F: Fn(usize, usize, usize) -> Finite>(
    nodes: Seq<mcts::MctsNode<S>>,
    sente: bool,
    total: usize,
    score: F,
    i: int,
)
    requires
        rates_by_wins(score),
        mcts::selected(nodes, sente, total, score, i),
        0 <= i < nodes.len(),
    ensures
        none_does_better(nodes, i, sente),
{
    let scores = choose|scores: Seq<Finite>|
        #[trigger] mcts::scored(nodes, sente, total, score, scores) && is_last_max(
            mcts::ranks(scores),
            i,
        );
    assert forall|j: int|
        0 <= j < nodes.len() && nodes[j].rollouts == nodes[i].rollouts && nodes[j].sente_wins
            <= nodes[j].rollouts && nodes[i].sente_wins <= nodes[i].rollouts implies if sente {
        (#[trigger] nodes[j]).sente_wins <= nodes[i].sente_wins
    } else {
        nodes[j].sente_wins >= nodes[i].sente_wins
    } by {
        assert(mcts::ranks(scores)[j] <= mcts::ranks(scores)[i]);
        assert(call_ensures(
            score,
            (nodes[i].wins_for(sente), nodes[i].rollouts, total),
            scores[i],
        ));
        assert(call_ensures(
            score,
            (nodes[j].wins_for(sente), nodes[j].rollouts, total),
            scores[j],
        ));
    }
}

/// In a tree whose root a game has reached, an iteration goes down to a child that is best for the
/// player whose turn it is on the board at the root, of those with as many games.
pub proof fn a_tree_serves_the_player_to_move<F: Fn(usize, usize, usize) -> Finite>(
    before: mcts::MctsTree<Bitboard>,
    after: mcts::MctsTree<Bitboard>,
    score: F,
)
    requires
        rates_by_wins(score),
        reachable(before.root.state, before.root_depth as nat),
        before.root.iterated(after.root, before.sente(), score),
        before.root.children is List,
    ensures
        after.root.children matches mcts::MctsChildren::List(nodes) && exists|i: int|
            {
                let old_nodes = before.root.children->List_0;
                &&& 0 <= i < old_nodes@.len()
                &&& nodes@ == old_nodes@.update(i, #[trigger] nodes@[i])
                &&& none_does_better(old_nodes@, i, before.root.state.black_next())
            },
{
    a_game_keeps_count(before.root.state, before.root_depth as nat);
    let old_nodes = before.root.children->List_0;
    let nodes = after.root.children->List_0;
    let i = choose|i: int|
        #![trigger nodes@[i]]
        {
            &&& 0 <= i < old_nodes@.len()
            &&& mcts::selected(old_nodes@, before.sente(), before.root.rollouts, score, i)
            &&& old_nodes@[i].iterated(nodes@[i], !before.sente(), score)
            &&& nodes@ == old_nodes@.update(i, nodes@[i])
        };
    lemma_rated_best(old_nodes@, before.sente(), before.root.rollouts, score, i);
}

/// The move that a tree ends with is best for the player whose turn it is on the board at the root,
/// of those with as many games. One level down the other player is to move.
pub proof fn the_best_move_serves_the_player_to_move<F: Fn(usize, usize, usize) -> Finite>(
    tree: mcts::MctsTree<Bitboard>,
    nodes: Vec<mcts::MctsNode<Bitboard>>,
    score: F,
    i: int,
)
    requires
        rates_by_wins(score),
        reachable(tree.root.state, tree.root_depth as nat),
        tree.root.children == mcts::MctsChildren::List(nodes),
        mcts::selected(nodes@, tree.sente(), tree.root.rollouts, score, i),
        0 <= i < nodes@.len(),
    ensures
        none_does_better(nodes@, i, tree.root.state.black_next()),
{
    a_game_keeps_count(tree.root.state, tree.root_depth as nat);
    lemma_rated_best(nodes@, tree.sente(), tree.root.rollouts, score, i);
}

/// Two levels below the root, the other player is served.
pub proof fn the_other_player_answers<S: mcts::MctsState, F: Fn(usize, usize, usize) -> Finite>(
    before: mcts::MctsNode<S>,
    after: mcts::MctsNode<S>,
    sente: bool,
    score: F,
)
    requires
        rates_by_wins(score),
        before.iterated(after, sente, score),
        before.children is List,
    ensures
        after.children matches mcts::MctsChildren::List(nodes) && exists|i: int|
            {
                let old_nodes = before.children->List_0;
                &&& 0 <= i < old_nodes@.len()
                &&& nodes@ == old_nodes@.update(i, #[trigger] nodes@[i])
                &&& none_does_better(old_nodes@, i, sente)
                &&& old_nodes@[i].children matches mcts::MctsChildren::List(replies) ==> exists|
                    j: int,
                |
                    #![trigger replies@[j]]
                    {
                        &&& 0 <= j < replies@.len()
                        &&& none_does_better(replies@, j, !sente)
                        &&& nodes@[i].children matches mcts::MctsChildren::List(later)
                        &&& later@ == replies@.update(j, later@[j])
                    }
            },
{
    let old_nodes = before.children->List_0;
    let nodes = after.children->List_0;
    let i = choose|i: int|
        #![trigger nodes@[i]]
        {
            &&& 0 <= i < old_nodes@.len()
            &&& mcts::selected(old_nodes@, sente, before.rollouts, score, i)
            &&& old_nodes@[i].iterated(nodes@[i], !sente, score)
            &&& nodes@ == old_nodes@.update(i, nodes@[i])
        };
    lemma_rated_best(old_nodes@, sente, before.rollouts, score, i);
    let child = old_nodes@[i];
    if child.children is List {
        let replies = child.children->List_0;
        let later = nodes@[i].children->List_0;
        let j = choose|j: int|
            #![trigger later@[j]]
            {
                &&& 0 <= j < replies@.len()
                &&& mcts::selected(replies@, !sente, child.rollouts, score, j)
                &&& replies@[j].iterated(later@[j], sente, score)
                &&& later@ == replies@.update(j, later@[j])
            };
        lemma_rated_best(replies@, !sente, child.rollouts, score, j);
    }
}

/// A decided game that sente has won counts as a win, and one that gote has won does not.
pub proof fn decided_games_count_for_the_winner<
    S: mcts::MctsState,
    F: Fn(usize, usize, usize) -> Finite,
>(state: S, node: mcts::MctsNode<S>, after: mcts::MctsNode<S>, sente: bool, score: F)
    requires
        mcts::MctsState::outcome(&state) is Some,
        node.fresh(state),
        node.iterated(after, sente, score),
    ensures
        node.rollouts == 1,
        after.rollouts == 2,
        mcts::MctsState::outcome(&state) == Some(true) ==> node.sente_wins == 1
            && after.sente_wins == 2,
        mcts::MctsState::outcome(&state) == Some(false) ==> node.sente_wins == 0
            && after.sente_wins == 0,
{
}

/// An iteration goes down to a child with the best score, by the wins of the player to move among the
/// child's games, the number of those games, and that of the node's own.
pub proof fn an_iteration_goes_to_the_best_score<
    'a,
    S: MctsState,
    F: Fn(u32, u32, u32) -> Finite,
>(
    before: MctsNode<'a, S>,
    after: MctsNode<'a, S>,
    back: MctsBackprop,
    sente: bool,
    score: F,
)
    requires
        before.iterated(after, back, sente, score),
        before.terminal is None,
        before.children is Some,
    ensures
        exists|i: int, scores: Seq<Finite>|
            {
                &&& #[trigger] only_child_changed(before, after, i)
                &&& #[trigger] scores.len() == before.below().len()
                &&& forall|j: int|
                    0 <= j < before.below().len() ==> {
                        let child = before.below()[j];
                        let wins = if sente {
                            child.num_wins as int
                        } else {
                            child.num_sims - child.num_wins
                        };
                        &&& (#[trigger] scores[j]).rank() <= scores[i].rank()
                        &&& call_ensures(
                            score,
                            (wins as u32, child.num_sims, before.num_sims),
                            scores[j],
                        )
                    }
            },
{
    let i = choose|i: int|
        #![trigger after.below()[i]]
        {
            &&& 0 <= i < before.below().len()
            &&& mcts2::selected(before.below(), sente, before.num_sims, score, i)
            &&& after.below() == before.below().update(i, after.below()[i])
            &&& before.below()[i].num_sims < before.num_sims
            &&& before.below()[i].iterated(
                after.below()[i],
                MctsBackprop { depth: (back.depth - 1) as usize, ..back },
                !sente,
                score,
            )
        };
    assert(only_child_changed(before, after, i));
    let scores = choose|scores: Seq<Finite>|
        #[trigger] mcts2::scored(before.below(), sente, before.num_sims, score, scores)
            && is_last_max(mcts2::ranks(scores), i);
    assert(scores.len() == before.below().len());
    assert forall|j: int| 0 <= j < before.below().len() implies {
        let child = before.below()[j];
        let wins = if sente {
            child.num_wins as int
        } else {
            child.num_sims - child.num_wins
        };
        &&& (#[trigger] scores[j]).rank() <= scores[i].rank()
        &&& call_ensures(score, (wins as u32, child.num_sims, before.num_sims), scores[j])
    } by {
        assert(mcts2::ranks(scores)[j] <= mcts2::ranks(scores)[i]);
    }
}

/// The line of play that a monitor is shown starts with the move that is shown as the best.
pub proof fn the_best_line_starts_with_the_best_move<'a, S: MctsState>(
    root: MctsNode<'a, S>,
    stats: mcts2::MctsStats<S>,
)
    requires
        root.ok(),
        root.terminal is None,
        root.children is Some,
        root.stands(stats),
    ensures
        stats.num_sims == root.num_sims,
        stats.num_wins == root.num_wins,
        exists|i: int|
            {
                &&& 0 <= i < root.below().len()
                &&& (#[trigger] root.below()[i]).state == stats.best_state
                &&& root.below()[i].leads_to(stats.best_state_leaf)
            },
{
    let sims = mcts2::sims_of(root.below());
    let i = choose|i: int|
        is_last_max(sims, i) && stats.best_state == #[trigger] root.below()[i].state;
    let j = choose|j: int|
        #![trigger root.below()[j]]
        {
            &&& is_last_max(sims, j)
            &&& root.below()[j].num_sims < root.num_sims
            &&& root.below()[j].leads_to(stats.best_state_leaf)
        };
    last_max_is_unique(sims, i, j);
}

/// The least depth that was reached is no greater than the greatest, once anything was reached.
pub proof fn depths_are_in_order<'a, S: MctsState, F: Fn(u32, u32, u32) -> Finite>(
    first: MctsNode<'a, S>,
    rounds: nat,
    root: MctsNode<'a, S>,
    sente: bool,
    score: F,
    depths: (usize, usize),
)
    requires
        mcts2::reached(first, rounds, root, sente, score, depths),
        rounds > 0,
    ensures
        depths.0 <= depths.1,
    decreases rounds,
{
    let (before, back, reached_before) = choose|
        before: MctsNode<'a, S>,
        back: MctsBackprop,
        reached_before: (usize, usize),
    |
        {
            &&& mcts2::reached(first, (rounds - 1) as nat, before, sente, score, reached_before)
            &&& #[trigger] before.iterated(root, back, sente, score)
            &&& #[trigger] mcts2::widened(reached_before, back.depth) == depths
        };
    if rounds > 1 {
        depths_are_in_order(first, (rounds - 1) as nat, before, sente, score, reached_before);
    }
}

/// In the tree that is kept, too, a child is gone down to by the best score, by the wins of the player
/// to move among the child's games, the number of those games, and that of the node's own.
pub proof fn a_kept_tree_goes_to_the_best_score<
    S: mcts::MctsState,
    F: Fn(usize, usize, usize) -> Finite,
>(
    before: mcts::MctsNode<S>,
    after: mcts::MctsNode<S>,
    sente: bool,
    score: F,
)
    requires
        before.iterated(after, sente, score),
        before.children is List,
    ensures
        after.children matches mcts::MctsChildren::List(nodes) && exists|
            i: int,
            scores: Seq<Finite>,
        |
            {
                let old_nodes = before.children->List_0;
                &&& 0 <= i < old_nodes@.len()
                &&& nodes@ == old_nodes@.update(i, #[trigger] nodes@[i])
                &&& #[trigger] scores.len() == old_nodes@.len()
                &&& forall|j: int|
                    0 <= j < old_nodes@.len() ==> {
                        let child = old_nodes@[j];
                        let wins = if sente {
                            child.sente_wins as int
                        } else {
                            child.rollouts - child.sente_wins
                        };
                        &&& (#[trigger] scores[j]).rank() <= scores[i].rank()
                        &&& call_ensures(
                            score,
                            (wins as usize, child.rollouts, before.rollouts),
                            scores[j],
                        )
                    }
            },
{
    let old_nodes = before.children->List_0;
    let nodes = after.children->List_0;
    let i = choose|i: int|
        #![trigger nodes@[i]]
        {
            &&& 0 <= i < old_nodes@.len()
            &&& mcts::selected(old_nodes@, sente, before.rollouts, score, i)
            &&& old_nodes@[i].iterated(nodes@[i], !sente, score)
            &&& nodes@ == old_nodes@.update(i, nodes@[i])
        };
    let scores = choose|scores: Seq<Finite>|
        #[trigger] mcts::scored(old_nodes@, sente, before.rollouts, score, scores) && is_last_max(
            mcts::ranks(scores),
            i,
        );
    assert forall|j: int| 0 <= j < old_nodes@.len() implies {
        let child = old_nodes@[j];
        let wins = if sente {
            child.sente_wins as int
        } else {
            child.rollouts - child.sente_wins
        };
        &&& (#[trigger] scores[j]).rank() <= scores[i].rank()
        &&& call_ensures(score, (wins as usize, child.rollouts, before.rollouts), scores[j])
    } by {
        assert(mcts::ranks(scores)[j] <= mcts::ranks(scores)[i]);
    }
    assert(scores.len() == old_nodes@.len());
    assert(nodes@ == old_nodes@.update(i, nodes@[i]));
}

} // verus!
