//! What holds of every game between players.

use vstd::prelude::*;
use crate::agent::{mcts_thinking_task, ThinkHandle};
use crate::bb::{flip, lemma_flip, start_board, swapped, Bitboard};
use crate::board_laws::{
    a_game_keeps_count, a_move_places_one_stone, is_reply, moves_are_the_empty_cells, reachable,
    transpose_commutes_with_moves, transpose_mirrors_and_swaps, transpose_swaps_the_winner,
};
use crate::game::{
    a_search_plays_its_games, ends_on, play, run_once, search_led_on, searched_through,
    MctsMoreSims,
};
use crate::mcts2::{grown_to, scorable, searched, sente_at, MctsNode, MctsState, MctsStats};
use crate::rank::{can_end, can_have, tally};
use crate::util::Finite;

verus! {

/// Whether a search that serves the player to move on `board`, with as many games as that player
/// has, can lead to `next`.
pub open spec fn mover_searched<F: Fn(u32, u32, u32) -> Finite>(
    board: Bitboard,
    black_sims: u32,
    white_sims: u32,
    score: F,
    next: Bitboard,
) -> bool {
    exists|rounds: nat, root: MctsNode<'_, Bitboard>|
        {
            &&& #[trigger] grown_to(board, rounds, root, board.black_next(), score)
            &&& root.picks(next)
            &&& root.full() || root.num_sims > if board.black_next() {
                black_sims
            } else {
                white_sims
            }
        }
}

/// A game of tree search against itself starts on the empty board, and every move in it is found by a
/// search for the player whose turn it is on the board, with that player's number of games. It ends
/// with the first board that is won, by the player who is said to have won.
pub proof fn both_sides_search_for_themselves<F: Fn(u32, u32, u32) -> Finite>(
    black_sims: u32,
    white_sims: u32,
    score: &F,
    result: (bool, usize),
)
    requires
        scorable(*score),
        call_ensures(run_once, (black_sims, white_sims, score), result),
    ensures
        exists|boards: Seq<Bitboard>|
            {
                &&& #[trigger] boards.len() == result.1 + 1
                &&& boards[0] == start_board()
                &&& boards.last().winner() == Some(result.0)
                &&& forall|t: int|
                    0 <= t < result.1 ==> {
                        &&& (#[trigger] boards[t]).winner() is None
                        &&& mover_searched(
                            boards[t],
                            black_sims,
                            white_sims,
                            *score,
                            boards[t + 1],
                        )
                    }
            },
{
    let boards = choose|boards: Seq<Bitboard>|
        {
            &&& #[trigger] searched_through(boards, black_sims, white_sims, *score)
            &&& boards.len() == result.1 + 1
            &&& ends_on(boards.last(), result.1 as nat, result.0)
        };
    assert forall|t: int| 0 <= t < result.1 implies {
        &&& (#[trigger] boards[t]).winner() is None
        &&& mover_searched(boards[t], black_sims, white_sims, *score, boards[t + 1])
    } by {
        lemma_reached(boards, black_sims, white_sims, *score, t);
        assert(search_led_on(boards, black_sims, white_sims, *score, t));
        a_game_keeps_count(boards[t], t as nat);
        let sims = if t % 2 == 0 {
            black_sims
        } else {
            white_sims
        };
        a_search_plays_its_games(
            boards[t],
            t as usize,
            *score,
            sims,
            MctsMoreSims(sims),
            boards[t + 1],
        );
    }
    assert(boards.len() == result.1 + 1);
}

/// The boards of such a game are reached move by move.
proof fn lemma_reached<F: Fn(u32, u32, u32) -> Finite>(
    boards: Seq<Bitboard>,
    black_sims: u32,
    white_sims: u32,
    score: F,
    t: int,
)
    requires
        searched_through(boards, black_sims, white_sims, score),
        0 <= t < boards.len(),
    ensures
        reachable(boards[t], t as nat),
    decreases t,
{
    if t > 0 {
        lemma_reached(boards, black_sims, white_sims, score, t - 1);
        assert(search_led_on(boards, black_sims, white_sims, score, t - 1));
        let sims = if (t - 1) % 2 == 0 {
            black_sims
        } else {
            white_sims
        };
        a_game_keeps_count(boards[t - 1], (t - 1) as nat);
        lemma_searched_is_reply(
            boards[t - 1],
            (t - 1) as usize,
            score,
            MctsMoreSims(sims),
            boards[t],
        );
    }
}

proof fn lemma_searched_is_reply<F: Fn(u32, u32, u32) -> Finite>(
    board: Bitboard,
    depth: usize,
    score: F,
    monitor: MctsMoreSims,
    next: Bitboard,
)
    requires
        searched(board, depth, score, monitor, monitor, next),
    ensures
        is_reply(board, next),
{
    a_search_plays_its_games(board, depth, score, monitor.0, monitor, next);
    let (rounds, root) = choose|rounds: nat, root: MctsNode<'_, Bitboard>|
        {
            &&& #[trigger] grown_to(board, rounds, root, sente_at(depth), score)
            &&& root.num_sims > monitor.0 || root.full()
            &&& root.picks(next)
        };
    lemma_children_are_successors(board, rounds, root, sente_at(depth), score);
    let i = choose|i: int|
        crate::util::is_last_max(crate::mcts2::sims_of(root.below()), i) && next
            == #[trigger] root.below()[i].state;
    moves_are_the_empty_cells(board, 121);
    let moves = board.moves_below(121);
    let (m, child) = moves[i];
    assert(next == board.played(m as int));
}

/// The children of a root that has grown are the boards that its moves lead to.
proof fn lemma_children_are_successors<F: Fn(u32, u32, u32) -> Finite>(
    board: Bitboard,
    rounds: nat,
    root: MctsNode<'_, Bitboard>,
    sente: bool,
    score: F,
)
    requires
        crate::mcts2::grown(board, rounds, root, sente, score),
    ensures
        root.state == board,
        root.terminal == board.winner(),
        root.below().len() > 0 ==> {
            &&& root.below().len() == board.moves_below(121).len()
            &&& forall|i: int|
                0 <= i < root.below().len() ==> (#[trigger] root.below()[i]).state
                    == board.moves_below(121)[i].1
        },
    decreases rounds,
{
    if rounds > 0 {
        let (before, back) = choose|
            before: MctsNode<'_, Bitboard>,
            back: crate::mcts2::MctsBackprop,
        |
            crate::mcts2::grown(board, (rounds - 1) as nat, before, sente, score)
                && #[trigger] before.iterated(root, back, sente, score);
        lemma_children_are_successors(board, (rounds - 1) as nat, before, sente, score);
        let next = MctsState::successors(&board);
        if root.below().len() > 0 {
            if before.terminal is None && before.children is None {
                assert forall|i: int| 0 <= i < root.below().len() implies (
                #[trigger] root.below()[i]).state == board.moves_below(121)[i].1 by {
                    assert(root.below()[i].fresh(next[i]));
                }
            } else if before.terminal is None {
                let j = choose|j: int|
                    #![trigger root.below()[j]]
                    {
                        &&& 0 <= j < before.below().len()
                        &&& crate::mcts2::selected(
                            before.below(),
                            sente,
                            before.num_sims,
                            score,
                            j,
                        )
                        &&& root.below() == before.below().update(j, root.below()[j])
                        &&& before.below()[j].num_sims < before.num_sims
                        &&& before.below()[j].iterated(
                            root.below()[j],
                            crate::mcts2::MctsBackprop {
                                depth: (back.depth - 1) as usize,
                                ..back
                            },
                            !sente,
                            score,
                        )
                    };
                assert forall|i: int| 0 <= i < root.below().len() implies (
                #[trigger] root.below()[i]).state == board.moves_below(121)[i].1 by {
                    assert(before.below()[i].state == board.moves_below(121)[i].1);
                    if i != j {
                        assert(root.below()[i] == before.below()[i]);
                    }
                }
            }
        }
    }
}

/// A thinker on a board that a game has reached thinks for the player whose turn it is there.
pub proof fn a_thinker_serves_the_player_to_move<
    F: Fn(u32, u32, u32) -> Finite,
    D: Fn(&MctsStats<Bitboard>, u128) -> String,
>(task: &ThinkHandle, score: &F, describe: &D, next: Bitboard)
    requires
        reachable(task.board(), task.turn() as nat),
        call_ensures(mcts_thinking_task, (task, score, describe), next),
    ensures
        is_reply(task.board(), next),
        exists|rounds: nat, root: MctsNode<'_, Bitboard>|
            #[trigger] grown_to(
                task.board(),
                rounds,
                root,
                task.board().black_next(),
                *score,
            ) && root.picks(next),
{
    a_game_keeps_count(task.board(), task.turn() as nat);
}

/// Whoever is sente moves where black is to move, and whoever is gote where white is, until the first
/// board that is won; the result is who has won there.
pub proof fn each_player_moves_in_turn<S: Fn(Bitboard) -> Bitboard, G: Fn(Bitboard) -> Bitboard>(
    sente: &S,
    gote: &G,
    sente_win: bool,
)
    requires
        call_ensures(play, (sente, gote), Some(sente_win)),
    ensures
        exists|boards: Seq<Bitboard>|
            {
                &&& #[trigger] boards.len() > 0
                &&& boards[0] == start_board()
                &&& boards.last().winner() == Some(sente_win)
                &&& forall|t: int|
                    0 <= t < boards.len() - 1 ==> {
                        &&& (#[trigger] boards[t]).winner() is None
                        &&& boards[t].black_next() ==> call_ensures(
                            *sente,
                            (boards[t],),
                            boards[t + 1],
                        )
                        &&& !boards[t].black_next() ==> call_ensures(
                            *gote,
                            (boards[t],),
                            boards[t + 1],
                        )
                    }
            },
{
    let boards = choose|boards: Seq<Bitboard>|
        #[trigger] crate::game::boards_played(boards, *sente, *gote) && boards.last().winner()
            == Some(sente_win);
    assert(boards.len() > 0);
}

/// A win at once is found for either player alike: where one player has such a move, the other one has
/// it on the transposed board, at the mirrored cell.
pub proof fn either_player_takes_a_win(b: Bitboard, won: Option<Bitboard>, turned: Option<Bitboard>)
    requires
        b.wf(),
        b.took_win(won),
        b.transposed().took_win(turned),
    ensures
        won is Some <==> turned is Some,
        won matches Some(next) ==> next.winner() == Some(b.black_next()) && is_reply(b, next),
        turned matches Some(next) ==> next.winner() == Some(!b.black_next()) && is_reply(
            b.transposed(),
            next,
        ),
        won is None <==> forall|next: Bitboard| #[trigger]
            is_reply(b, next) ==> next.winner() != Some(b.black_next()),
{
    let t = b.transposed();
    transpose_mirrors_and_swaps(b);
    assert forall|n: int| 0 <= n < 121 implies #[trigger] b.wins_at(n) == t.wins_at(flip(n)) by {
        lemma_win_mirrored(b, n);
    }
    if won is Some {
        let n = choose|n: int|
            0 <= n < 121 && #[trigger] b.wins_at(n) && won == Some(b.played(n));
        lemma_flip(n);
        assert(t.wins_at(flip(n)));
        assert(turned is Some);
        assert(is_reply(b, b.played(n)));
    }
    if turned is Some {
        let n = choose|n: int| 0 <= n < 121 && #[trigger] t.wins_at(n);
        lemma_flip(n);
        assert(b.wins_at(flip(n)) == t.wins_at(flip(flip(n))));
        assert(won is Some);
    }
    if won is None {
        assert forall|next: Bitboard| #[trigger] is_reply(b, next) implies next.winner() != Some(
            b.black_next(),
        ) by {
            let n = choose|n: int|
                0 <= n < 121 && b.stone(n) is None && next == #[trigger] b.played(n);
            assert(!b.wins_at(n));
        }
    }
}

proof fn lemma_win_mirrored(b: Bitboard, n: int)
    requires
        b.wf(),
        0 <= n < 121,
    ensures
        b.wins_at(n) == b.transposed().wins_at(flip(n)),
{
    let t = b.transposed();
    transpose_mirrors_and_swaps(b);
    lemma_flip(n);
    assert(t.stone(flip(n)) == swapped(b.stone(flip(flip(n)))));
    if b.stone(n) is None {
        transpose_commutes_with_moves(b, n);
        a_move_places_one_stone(b, n);
        transpose_swaps_the_winner(b.played(n));
    }
}

/// How many of the first `n` games the model has won: it is sente in the first game, gote in the
/// second, and so on in turns; each result says whether sente has won.
pub open spec fn model_wins(results: Seq<bool>, n: nat) -> nat
    decreases n,
{
    if n == 0 {
        0
    } else {
        model_wins(results, (n - 1) as nat) + if results[n - 1] == ((n - 1) % 2 == 0) {
            1nat
        } else {
            0
        }
    }
}

/// Every game between a model and tree search is won by one of them: the record of the model counts
/// those that it has won in its seat, that of tree search all others.
pub proof fn each_game_is_counted_for_its_winner(results: Seq<bool>)
    requires
        results.len() <= usize::MAX,
    ensures
        tally(results).games == results.len(),
        tally(results).model.wins == model_wins(results, results.len()),
        tally(results).mcts.wins == results.len() - model_wins(results, results.len()),
        model_wins(results, results.len()) <= results.len(),
    decreases results.len(),
{
    if results.len() > 0 {
        let less = results.drop_last();
        each_game_is_counted_for_its_winner(less);
        lemma_same_wins(results, less, less.len());
    }
}

proof fn lemma_same_wins(a: Seq<bool>, b: Seq<bool>, n: nat)
    requires
        n <= a.len(),
        n <= b.len(),
        forall|i: int| 0 <= i < n ==> a[i] == b[i],
    ensures
        model_wins(a, n) == model_wins(b, n),
    decreases n,
{
    if n > 0 {
        lemma_same_wins(a, b, (n - 1) as nat);
        assert(a[n - 1] == b[n - 1]);
    }
}

/// A record can be kept of a fight in which the model is sente in the first game, gote in the second,
/// and so on in turns.
pub proof fn the_players_change_seats<M: Fn(Bitboard) -> Bitboard, T: Fn(Bitboard) -> Bitboard>(
    model: M,
    mcts: T,
    results: Seq<bool>,
    i: int,
)
    requires
        can_have(model, mcts, results),
        0 <= i < results.len() <= usize::MAX,
    ensures
        i % 2 == 0 ==> can_end(model, mcts, results[i]),
        i % 2 == 1 ==> can_end(mcts, model, results[i]),
{
}

} // verus!
