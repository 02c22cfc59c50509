//! What holds of everything that is handed to a network.

use vstd::prelude::*;
use crate::bb::{flip, swapped, Bitboard};
use crate::board_laws::transpose_mirrors_and_swaps;
use crate::hex::adjacent;
use crate::nn::input::{
    batch_planes, board_planes, boards_planes, hex_kernel_mask, position_boards,
    position_policies, positions_to_input, TrainInput,
};
use crate::nn::model::{
    evaluated, ready_stack, shown, tells, EvalRequest, EvalResult,
};
use crate::nn::train::positions::Position;
use crate::nn::transform::{boards_of, policies_from, transposed_policy, values_from};
use crate::util::F32;

verus! {

/// Where a cell stands in the planes of the `i`-th board: black's plane comes first, then white's,
/// each row by row.
pub open spec fn plane_place(i: int, white: bool, row: int, col: int) -> int {
    242 * i + (if white {
        121int
    } else {
        0
    }) + 11 * row + col
}

/// In black's plane of each board there is a one for each of black's stones, in white's for each of
/// white's, in the row and column of the stone; everywhere else there is a zero.
pub proof fn stones_become_ones(
    boards: &Vec<Bitboard>,
    planes: Vec<F32>,
    i: int,
    white: bool,
    row: int,
    col: int,
)
    requires
        call_ensures(batch_planes, (boards,), planes),
        0 <= i < boards@.len(),
        0 <= row < 11,
        0 <= col < 11,
    ensures
        planes@.len() == 242 * boards@.len(),
        boards@[i].stone(11 * row + col) == Some(!white) ==> planes@[plane_place(
            i,
            white,
            row,
            col,
        )] == F32(0x3f80_0000),
        boards@[i].stone(11 * row + col) != Some(!white) ==> planes@[plane_place(
            i,
            white,
            row,
            col,
        )] == F32(0),
{
    lemma_planes(boards@, i, plane_place(0, white, row, col));
}

proof fn lemma_planes(boards: Seq<Bitboard>, i: int, k: int)
    requires
        0 <= i < boards.len(),
        0 <= k < 242,
    ensures
        boards_planes(boards).len() == 242 * boards.len(),
        boards_planes(boards)[242 * i + k] == board_planes(boards[i])[k],
    decreases boards.len(),
{
    let less = boards.drop_last();
    let head = boards_planes(less);
    let tail = board_planes(boards.last());
    lemma_planes_len(less);
    assert(boards_planes(boards) == head + tail);
    if i < less.len() {
        lemma_planes(less, i, k);
        assert(less[i] == boards[i]);
        assert((head + tail)[242 * i + k] == head[242 * i + k]);
    } else {
        assert((head + tail)[242 * i + k] == tail[k]);
    }
}

proof fn lemma_planes_len(boards: Seq<Bitboard>)
    ensures
        boards_planes(boards).len() == 242 * boards.len(),
    decreases boards.len(),
{
    if boards.len() > 0 {
        lemma_planes_len(boards.drop_last());
    }
}

/// A network learns from each position by itself: its board, what its policy says of each cell, and
/// its value, all at the place of the position.
pub proof fn positions_are_kept_apart(
    positions: &Vec<&Position>,
    input: TrainInput,
    i: int,
    white: bool,
    row: int,
    col: int,
)
    requires
        call_ensures(positions_to_input, (positions,), input),
        forall|j: int|
            0 <= j < positions@.len() ==> (#[trigger] positions@[j]).policy@.len() == 121,
        0 <= i < positions@.len(),
        0 <= row < 11,
        0 <= col < 11,
    ensures
        input.values@.len() == positions@.len(),
        input.values@[i] == positions@[i].value,
        input.policies@.len() == 121 * positions@.len(),
        input.policies@[121 * i + 11 * row + col] == positions@[i].policy@[11 * row + col],
        input.boards@.len() == 242 * positions@.len(),
        (input.boards@[plane_place(i, white, row, col)] == F32(0x3f80_0000))
            == (positions@[i].board.stone(11 * row + col) == Some(!white)),
{
    let boards = position_boards(positions@);
    lemma_planes_len(boards);
    lemma_planes(boards, i, plane_place(0, white, row, col));
    assert(boards[i] == positions@[i].board);
    lemma_policies(positions@, i, 11 * row + col);
}

proof fn lemma_policies(positions: Seq<&Position>, i: int, n: int)
    requires
        forall|j: int| 0 <= j < positions.len() ==> (#[trigger] positions[j]).policy@.len() == 121,
    ensures
        position_policies(positions).len() == 121 * positions.len(),
        0 <= i < positions.len() && 0 <= n < 121 ==> position_policies(positions)[121 * i + n]
            == positions[i].policy@[n],
    decreases positions.len(),
{
    if positions.len() > 0 {
        let less = positions.drop_last();
        assert forall|j: int| 0 <= j < less.len() implies (#[trigger] less[j]).policy@.len()
            == 121 by {
            assert(positions[j].policy@.len() == 121);
        }
        lemma_policies(less, i, n);
        let head = position_policies(less);
        let tail = positions.last().policy@;
        assert(positions[positions.len() - 1].policy@.len() == 121);
        assert(position_policies(positions) == head + tail);
        if 0 <= i < positions.len() && 0 <= n < 121 {
            if i < less.len() {
                assert(less[i] == positions[i]);
                assert((head + tail)[121 * i + n] == head[121 * i + n]);
            } else {
                assert((head + tail)[121 * i + n] == tail[n]);
            }
        }
    }
}

/// The kernel of a convolution reaches the cells that can be linked to the middle one in as many
/// steps as its radius, as stones are linked in the game: the cell that is `a` rows and `b` columns
/// away counts exactly where `a`, `b` and `a + b` are no more than the radius, whatever their signs.
pub proof fn kernels_reach_as_stones_do(size: usize, mask: Vec<F32>, a: int, b: int)
    requires
        size % 2 == 1,
        size * size <= usize::MAX,
        2 * size <= usize::MAX,
        call_ensures(hex_kernel_mask, (size,), mask),
        -(size as int / 2) <= a <= size as int / 2,
        -(size as int / 2) <= b <= size as int / 2,
    ensures
        ({
            let half = size as int / 2;
            let at = (half + a) * size + half + b;
            &&& mask@.len() == size * size
            &&& 0 <= at < size * size
            &&& mask@[at] == if -half <= a + b <= half {
                F32(0x3f80_0000)
            } else {
                F32(0)
            }
            &&& adjacent((0, 0), (a, b)) ==> mask@[at] == F32(0x3f80_0000)
            &&& size == 3 && mask@[at] == F32(0x3f80_0000) ==> (a == 0 && b == 0) || adjacent(
                (0, 0),
                (a, b),
            )
        }),
{
    let half = size as int / 2;
    let (i, j) = (half + a, half + b);
    let at = i * size + j;
    assert(0 <= at < size * size) by (nonlinear_arith)
        requires
            0 <= i < size,
            0 <= j < size,
            at == i * size + j,
    ;
    vstd::arithmetic::div_mod::lemma_fundamental_div_mod_converse(at, size as int, i, j);
}

/// Each request is answered by what the network says of its own board, as the player to move sees it.
/// Where sente is to move, that is the board itself, and what is said of a cell is said of that cell.
/// Where gote is to move, the network is shown each stone in the other color on the mirrored cell; what
/// it says of a cell is said of the mirrored one, and the value changes sign.
pub proof fn each_request_is_answered_by_itself<
    F: Fn(&Vec<F32>, usize) -> (Vec<F32>, Vec<F32>),
>(
    reqs: Vec<EvalRequest>,
    forward: &F,
    results: Vec<EvalResult>,
    i: int,
    row: int,
    col: int,
)
    requires
        evaluated(reqs@, *forward, results@),
        0 <= i < reqs@.len() <= usize::MAX,
        reqs@[i].board.wf(),
        reqs@[i].transform.stack@.len() == 0,
        0 <= row < 11,
        0 <= col < 11,
    ensures
        results@.len() == reqs@.len(),
        exists|planes: Vec<F32>, out: (Vec<F32>, Vec<F32>)|
            {
                &&& #[trigger] call_ensures(*forward, (&planes, reqs@.len() as usize), out)
                &&& planes@.len() == 242 * reqs@.len()
                &&& answers_for(reqs@[i].board, planes@, out, i, row, col, results@[i])
            },
{
    let req = reqs@[i];
    let (planes, out) = choose|planes: Vec<F32>, out: (Vec<F32>, Vec<F32>)|
        {
            &&& planes@ == boards_planes(shown(reqs@))
            &&& #[trigger] call_ensures(*forward, (&planes, reqs@.len() as usize), out)
            &&& forall|j: int|
                0 <= j < reqs@.len() ==> tells(
                    reqs@[j],
                    out.0@.subrange(121 * j, 121 * j + 121),
                    out.1@[j],
                    #[trigger] results@[j],
                )
        };
    let seen = shown(reqs@);
    lemma_planes_len(seen);
    assert(tells(req, out.0@.subrange(121 * i, 121 * i + 121), out.1@[i], results@[i]));
    lemma_seen(req, seen[i]);
    lemma_answers(seen, req, planes@, out, i, row, col, results@[i]);
}

/// What the network is shown of a board.
proof fn lemma_seen(req: EvalRequest, seen: Bitboard)
    requires
        req.transform.stack@.len() == 0,
        seen == boards_of(ready_stack(req), ready_stack(req).len(), req.board),
    ensures
        seen == if req.board.black_next() {
            req.board
        } else {
            req.board.transposed()
        },
{
    reveal_with_fuel(boards_of, 2);
}

/// What is made of what the network says.
proof fn lemma_told(req: EvalRequest, policy: Seq<F32>, value: F32, result: EvalResult)
    requires
        req.transform.stack@.len() == 0,
        tells(req, policy, value, result),
    ensures
        req.board.black_next() ==> result.policy@ == policy && result.value == value,
        !req.board.black_next() ==> result.policy@ == transposed_policy(policy) && result.value
            == value.negated(),
{
    reveal_with_fuel(policies_from, 2);
    reveal_with_fuel(values_from, 2);
}

/// What the planes of a board hold of a cell.
proof fn lemma_plane_cell(board: Bitboard, row: int, col: int)
    requires
        0 <= row < 11,
        0 <= col < 11,
    ensures
        (board_planes(board)[plane_place(0, false, row, col)] == F32(0x3f80_0000)) == (board.stone(
            11 * row + col,
        ) == Some(true)),
        (board_planes(board)[plane_place(0, true, row, col)] == F32(0x3f80_0000)) == (board.stone(
            11 * row + col,
        ) == Some(false)),
{
    let n = 11 * row + col;
    assert((121 + n) % 121 == n && n % 121 == n);
}

/// What the network says of a board, at the place of its request.
proof fn lemma_said(
    req: EvalRequest,
    said: Seq<F32>,
    value: F32,
    row: int,
    col: int,
    result: EvalResult,
)
    requires
        0 <= row < 11,
        0 <= col < 11,
        req.transform.stack@.len() == 0,
        tells(req, said, value, result),
    ensures
        req.board.black_next() ==> result.policy@[11 * row + col] == said[11 * row + col]
            && result.value == value,
        !req.board.black_next() ==> result.policy@[11 * row + col] == said[11 * col + row]
            && result.value == value.negated(),
{
    let n = 11 * row + col;
    assert(n / 11 == row && n % 11 == col);
    assert(flip(n) == 11 * col + row);
    lemma_told(req, said, value, result);
}

/// The stones that the network is shown of gote's board.
proof fn lemma_turned(board: Bitboard, row: int, col: int)
    requires
        board.wf(),
        0 <= row < 11,
        0 <= col < 11,
    ensures
        board.transposed().stone(11 * row + col) == swapped(board.stone(11 * col + row)),
{
    let n = 11 * row + col;
    assert(n / 11 == row && n % 11 == col);
    transpose_mirrors_and_swaps(board);
    assert(board.transposed().stone(n) == swapped(board.stone(flip(n))));
}

proof fn lemma_answers(
    seen: Seq<Bitboard>,
    req: EvalRequest,
    planes: Seq<F32>,
    out: (Vec<F32>, Vec<F32>),
    i: int,
    row: int,
    col: int,
    result: EvalResult,
)
    requires
        0 <= i < seen.len(),
        0 <= row < 11,
        0 <= col < 11,
        planes == boards_planes(seen),
        req.board.wf(),
        req.transform.stack@.len() == 0,
        seen[i] == (if req.board.black_next() {
            req.board
        } else {
            req.board.transposed()
        }),
        tells(req, out.0@.subrange(121 * i, 121 * i + 121), out.1@[i], result),
    ensures
        answers_for(req.board, planes, out, i, row, col, result),
{
    let said = out.0@.subrange(121 * i, 121 * i + 121);
    lemma_planes(seen, i, plane_place(0, false, row, col));
    lemma_planes(seen, i, plane_place(0, true, row, col));
    lemma_plane_cell(seen[i], row, col);
    lemma_said(req, said, out.1@[i], row, col, result);
    lemma_turned(req.board, row, col);
}

/// Whether the result for a board is what was said of it, at the place of its request, of this row and
/// column.
pub open spec fn answers_for(
    board: Bitboard,
    planes: Seq<F32>,
    out: (Vec<F32>, Vec<F32>),
    i: int,
    row: int,
    col: int,
    result: EvalResult,
) -> bool {
    let one = F32(0x3f80_0000);
    let black_plane = planes[plane_place(i, false, row, col)];
    let white_plane = planes[plane_place(i, true, row, col)];
    let said = out.0@.subrange(121 * i, 121 * i + 121);
    if board.black_next() {
        &&& (black_plane == one) == (board.stone(11 * row + col) == Some(true))
        &&& (white_plane == one) == (board.stone(11 * row + col) == Some(false))
        &&& result.policy@[11 * row + col] == said[11 * row + col]
        &&& result.value == out.1@[i]
    } else {
        &&& (black_plane == one) == (board.stone(11 * col + row) == Some(false))
        &&& (white_plane == one) == (board.stone(11 * col + row) == Some(true))
        &&& result.policy@[11 * row + col] == said[11 * col + row]
        &&& result.value == out.1@[i].negated()
    }
}

} // verus!
