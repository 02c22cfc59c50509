//! What holds of every game that is played and sent.

use vstd::prelude::*;
use crate::bb::{flip, start_board, swapped, Bitboard};
use crate::board_laws::transpose_mirrors_and_swaps;
use crate::nn::search::{decided_value, searched, Arithmetic, Evaluator, Monitor, Output};
use crate::nn::train::buffer::{position_at, positions_in, PositionView};
use crate::nn::train::codec::le_value;
use crate::nn::train::positions::{a_position_comes_back, position_bytes, Position};
use crate::nn::train::selfplay::{
    found_by_search, game_bytes, is_seen, seen_bytes, self_play, SelfPlayGame,
};
use crate::util::F32;

verus! {

/// Whether a position is the one that a player had before them: sente's as it was; gote's with rows
/// and columns exchanged, the stones in the other color, and for each cell what the policy said of
/// the mirrored one. Its value is good for a player who went on to win, and bad for one who lost.
pub open spec fn is_view_of(
    pos: PositionView,
    board: Bitboard,
    policy: Seq<F32>,
    sente_win: bool,
) -> bool {
    &&& pos.policy.len() == 121
    &&& pos.board.black_next()
    &&& board.black_next() ==> {
        &&& pos.board == board
        &&& pos.policy == policy
        &&& sente_win ==> pos.value.rank() > F32(0).rank()
        &&& !sente_win ==> pos.value.rank() < F32(0).rank()
    }
    &&& !board.black_next() ==> {
        &&& forall|row: int, col: int|
            0 <= row < 11 && 0 <= col < 11 ==> #[trigger] seen_stone(pos.board, row, col)
                == swapped(board.stone(11 * col + row))
        &&& forall|row: int, col: int|
            0 <= row < 11 && 0 <= col < 11 ==> #[trigger] seen_number(pos.policy, row, col)
                == policy[11 * col + row]
        &&& sente_win ==> pos.value.rank() < F32(0).rank()
        &&& !sente_win ==> pos.value.rank() > F32(0).rank()
    }
    &&& pos.value == F32(0x3f80_0000) || pos.value == F32(0xbf80_0000)
}

/// The stone in a row and column.
pub open spec fn seen_stone(board: Bitboard, row: int, col: int) -> Option<bool> {
    board.stone(11 * row + col)
}

/// What a policy says of a row and column.
pub open spec fn seen_number(policy: Seq<F32>, row: int, col: int) -> F32 {
    policy[11 * row + col]
}

proof fn lemma_mirrored_cell(row: int, col: int)
    requires
        0 <= row < 11,
        0 <= col < 11,
    ensures
        flip(11 * row + col) == 11 * col + row,
        0 <= 11 * row + col < 121,
{
    let n = 11 * row + col;
    assert(n / 11 == row && n % 11 == col);
}

/// What is sent of a position is read back as what the player to move had before them.
pub proof fn what_is_sent_is_what_the_mover_saw(
    board: Bitboard,
    policy: Seq<F32>,
    sente_win: bool,
)
    requires
        board.wf(),
        policy.len() == 121,
    ensures
        seen_bytes(board, policy, sente_win).len() == 520,
        is_view_of(position_at(seen_bytes(board, policy, sente_win)), board, policy, sente_win),
{
    let bytes = seen_bytes(board, policy, sente_win);
    let pos = position_at(bytes);
    transpose_mirrors_and_swaps(board);
    if board.black_next() {
        a_position_comes_back(board, decided_value(sente_win), policy);
    } else {
        let mirrored = crate::nn::transform::transposed_policy(policy);
        a_position_comes_back(
            board.transposed(),
            decided_value(sente_win).negated(),
            mirrored,
        );
        assert(pos.policy =~= mirrored);
        assert forall|row: int, col: int|
            0 <= row < 11 && 0 <= col < 11 implies #[trigger] seen_stone(pos.board, row, col)
            == swapped(board.stone(11 * col + row)) by {
            lemma_mirrored_cell(row, col);
        }
        assert forall|row: int, col: int|
            0 <= row < 11 && 0 <= col < 11 implies #[trigger] seen_number(pos.policy, row, col)
            == policy[11 * col + row] by {
            lemma_mirrored_cell(row, col);
        }
    }
}

/// A game that is sent is read back position by position, in the order of its moves, each as the
/// player to move had it before them.
pub proof fn a_game_is_sent_whole(log: Seq<(Bitboard, Vec<F32>)>, sente_win: bool, i: int)
    requires
        forall|j: int|
            0 <= j < log.len() ==> (#[trigger] log[j]).0.wf() && log[j].1@.len() == 121,
        0 <= i < log.len(),
    ensures
        game_bytes(log, sente_win).len() == 520 * log.len(),
        positions_in(game_bytes(log, sente_win)).len() == log.len(),
        is_view_of(
            positions_in(game_bytes(log, sente_win))[i],
            log[i].0,
            log[i].1@,
            sente_win,
        ),
{
    lemma_game_bytes(log, sente_win, i);
    assert(log[i].0.wf());
    what_is_sent_is_what_the_mover_saw(log[i].0, log[i].1@, sente_win);
}

proof fn lemma_game_bytes(log: Seq<(Bitboard, Vec<F32>)>, sente_win: bool, i: int)
    requires
        forall|j: int|
            0 <= j < log.len() ==> (#[trigger] log[j]).0.wf() && log[j].1@.len() == 121,
    ensures
        game_bytes(log, sente_win).len() == 520 * log.len(),
        0 <= i < log.len() ==> game_bytes(log, sente_win).subrange(520 * i, 520 * i + 520)
            == seen_bytes(log[i].0, log[i].1@, sente_win),
    decreases log.len(),
{
    if log.len() > 0 {
        let less = log.drop_last();
        let n = less.len() as int;
        assert forall|j: int| 0 <= j < less.len() implies (#[trigger] less[j]).0.wf()
            && less[j].1@.len() == 121 by {
            assert(less[j] == log[j]);
        }
        lemma_game_bytes(less, sente_win, i);
        assert(log[n].0.wf());
        what_is_sent_is_what_the_mover_saw(log[n].0, log[n].1@, sente_win);
        let head = game_bytes(less, sente_win);
        let all = game_bytes(log, sente_win);
        let tail = seen_bytes(log[n].0, log[n].1@, sente_win);
        assert(all == head + tail);
        if 0 <= i < n {
            assert(less[i] == log[i]);
            assert(all.subrange(520 * i, 520 * i + 520) =~= head.subrange(
                520 * i,
                520 * i + 520,
            ));
        } else if i == n {
            assert(all.subrange(520 * i, 520 * i + 520) =~= tail);
        }
    }
}

/// The positions of a finished game are those that are read back when it is sent.
pub proof fn positions_are_those_that_are_sent(
    game: &SelfPlayGame,
    positions: Vec<Position>,
    i: int,
)
    requires
        forall|j: int|
            0 <= j < game.log@.len() ==> (#[trigger] game.log@[j]).0.wf() && game.log@[j].1@.len()
                == 121,
        call_ensures(SelfPlayGame::positions, (game,), Some(positions)),
        0 <= i < game.log@.len(),
    ensures
        game.board.winner() is Some,
        positions@.len() == game.log@.len(),
        positions@[i]@ == positions_in(
            game_bytes(game.log@, game.board.winner() == Some(true)),
        )[i],
        is_view_of(
            positions@[i]@,
            game.log@[i].0,
            game.log@[i].1@,
            game.board.winner() == Some(true),
        ),
{
    let win = game.board.winner() == Some(true);
    let (board, policy) = (game.log@[i].0, game.log@[i].1@);
    a_game_is_sent_whole(game.log@, win, i);
    lemma_game_bytes(game.log@, win, i);
    assert(is_seen(positions@[i], board, policy, win));
    if board.black_next() {
        a_position_comes_back(board, decided_value(win), policy);
    } else {
        a_position_comes_back(
            board.transposed(),
            decided_value(win).negated(),
            crate::nn::transform::transposed_policy(policy),
        );
    }
    assert(positions@[i]@.policy =~= position_at(seen_bytes(board, policy, win)).policy);
}

/// Where the parts of a position stand in its bytes: black's stones, white's stones, the value, and
/// one number for each cell in the order of the cells, each with its lowest byte first.
pub proof fn a_position_is_laid_out(bytes: &[u8], pos: Position, n: int)
    requires
        bytes@.len() == 520,
        call_ensures(Position::deserialize_from, (bytes,), pos),
        0 <= n < 121,
    ensures
        pos.board.black == le_value(bytes@.subrange(0, 16)) as u128,
        pos.board.white == le_value(bytes@.subrange(16, 32)) as u128,
        pos.value.0 == le_value(bytes@.subrange(32, 36)) as u32,
        pos.policy@.len() == 121,
        pos.policy@[n].0 == le_value(bytes@.subrange(36 + 4 * n, 36 + 4 * n + 4)) as u32,
{
}

/// What a position is laid out as is what is read back of it.
pub proof fn a_position_is_written_as_it_is_read(
    board: Bitboard,
    value: F32,
    policy: Seq<F32>,
    bytes: &[u8],
    pos: Position,
)
    requires
        policy.len() == 121,
        bytes@ == position_bytes(board, value, policy),
        call_ensures(Position::deserialize_from, (bytes,), pos),
    ensures
        pos.board == board,
        pos.value == value,
        pos.policy@ == policy,
{
    a_position_comes_back(board, value, policy);
}

/// Each move of a game that a model plays against itself is found by a search on the board before it,
/// with as much noise as was asked for and no decay of values. Up to the 29th it is the move that was
/// drawn, and from then on the one that was visited most. The policy of that search is what is kept of
/// it. The game starts on the empty board, and ends where it is won.
pub proof fn a_model_searches_for_each_move<E: Evaluator, A: Arithmetic, M: Monitor>(
    eval: &E,
    arith: &A,
    dirichlet: F32,
    monitor: &M,
    game: SelfPlayGame,
    i: int,
)
    requires
        monitor.listens(),
        call_ensures(self_play, (eval, arith, dirichlet, monitor), Ok(game)),
        0 <= i < game.log@.len(),
    ensures
        game.log@[0].0 == start_board(),
        game.board.winner() is Some,
        game.log@[i].0.winner() is None,
        exists|out: Output|
            {
                &&& #[trigger] searched(
                    game.log@[i].0,
                    dirichlet,
                    F32(0),
                    eval,
                    arith,
                    monitor,
                    Some(out),
                )
                &&& game.log@[i].1@ == out.policy@
                &&& ({
                    let next = if i + 1 < game.log@.len() {
                        game.log@[i + 1].0
                    } else {
                        game.board
                    };
                    &&& i < 29 ==> next == out.board_sample
                    &&& i >= 29 ==> next == out.board_best
                })
            },
{
    reveal(found_by_search);
    assert(game.log@[i].0.winner() is None);
}

} // verus!
