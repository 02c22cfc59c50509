//! Boards and positions as numbers for a network.

use vstd::prelude::*;
use crate::bb::Bitboard;
use crate::nn::constants::BOARD_SIZE;
use crate::nn::train::positions::Position;
use crate::util::F32;

verus! {

/// One where the condition holds, else zero.
pub open spec fn indicator(holds: bool) -> F32 {
    if holds {
        F32(0x3f80_0000)
    } else {
        F32(0)
    }
}

/// One where the condition holds, else zero.
pub fn number(holds: bool) -> (x: F32)
    ensures
        x == indicator(holds),
{
    if holds {
        F32(0x3f80_0000)
    } else {
        F32(0)
    }
}

/// The two planes of a board: black's stones, then white's.
pub open spec fn board_planes(board: Bitboard) -> Seq<F32> {
    Seq::new(242, |i: int| indicator(board.stone(i % 121) == Some(i < 121)))
}

/// The planes of several boards, one after the other.
pub open spec fn boards_planes(boards: Seq<Bitboard>) -> Seq<F32>
    decreases boards.len(),
{
    if boards.len() == 0 {
        Seq::empty()
    } else {
        boards_planes(boards.drop_last()) + board_planes(boards.last())
    }
}

/// Append the planes of a board.
fn push_planes(out: &mut Vec<F32>, board: Bitboard)
    ensures
        final(out)@ == old(out)@ + board_planes(board),
{
    let mut i: usize = 0;
    while i < 242
        invariant
            i <= 242,
            out@ == old(out)@ + board_planes(board).take(i as int),
        decreases 242 - i,
    {
        let black = i < BOARD_SIZE;
        let x = match board.idx(i % BOARD_SIZE) {
            Some(stone) => number(stone == black),
            None => number(false),
        };
        out.push(x);
        assert(board_planes(board).take(i + 1) =~= board_planes(board).take(i as int).push(x));
        i = i + 1;
    }
    assert(board_planes(board).take(242) =~= board_planes(board));
}

/// The planes of boards, as a network takes them: for each board two planes of 11 rows.
pub fn batch_planes(boards: &Vec<Bitboard>) -> (planes: Vec<F32>)
    ensures
        planes@ == boards_planes(boards@),
        planes@.len() == 242 * boards@.len(),
{
    let mut planes: Vec<F32> = Vec::new();
    let mut i: usize = 0;
    while i < boards.len()
        invariant
            i <= boards@.len(),
            planes@ == boards_planes(boards@.take(i as int)),
            planes@.len() == 242 * i,
        decreases boards@.len() - i,
    {
        push_planes(&mut planes, boards[i]);
        assert(boards@.take(i + 1).drop_last() =~= boards@.take(i as int));
        i = i + 1;
    }
    assert(boards@.take(i as int) =~= boards@);
    planes
}

/// Positions to learn from: the planes of their boards, their policies and their values.
pub struct TrainInput {
    pub boards: Vec<F32>,
    pub policies: Vec<F32>,
    pub values: Vec<F32>,
}

/// The boards of positions.
pub open spec fn position_boards(positions: Seq<&Position>) -> Seq<Bitboard> {
    Seq::new(positions.len(), |i: int| positions[i].board)
}

/// The policies of positions, one after the other.
pub open spec fn position_policies(positions: Seq<&Position>) -> Seq<F32>
    decreases positions.len(),
{
    if positions.len() == 0 {
        Seq::empty()
    } else {
        position_policies(positions.drop_last()) + positions.last().policy@
    }
}

/// What a network learns from the positions.
pub fn positions_to_input(positions: &Vec<&Position>) -> (input: TrainInput)
    ensures
        input.boards@ == boards_planes(position_boards(positions@)),
        input.policies@ == position_policies(positions@),
        input.values@.len() == positions@.len(),
        forall|i: int|
            0 <= i < positions@.len() ==> #[trigger] input.values@[i] == positions@[i].value,
{
    let mut boards: Vec<F32> = Vec::new();
    let mut policies: Vec<F32> = Vec::new();
    let mut values: Vec<F32> = Vec::new();
    let mut i: usize = 0;
    while i < positions.len()
        invariant
            i <= positions@.len(),
            boards@ == boards_planes(position_boards(positions@.take(i as int))),
            policies@ == position_policies(positions@.take(i as int)),
            values@.len() == i,
            forall|j: int| 0 <= j < i ==> #[trigger] values@[j] == positions@[j].value,
        decreases positions@.len() - i,
    {
        let pos = positions[i];
        push_planes(&mut boards, pos.board);
        let mut k: usize = 0;
        let ghost before = policies@;
        while k < pos.policy.len()
            invariant
                k <= pos.policy@.len(),
                policies@ == before + pos.policy@.take(k as int),
            decreases pos.policy@.len() - k,
        {
            policies.push(pos.policy[k]);
            assert(pos.policy@.take(k + 1) =~= pos.policy@.take(k as int).push(
                pos.policy@[k as int],
            ));
            k = k + 1;
        }
        assert(pos.policy@.take(k as int) =~= pos.policy@);
        values.push(pos.value);
        proof {
            let more = positions@.take(i + 1);
            assert(more.drop_last() =~= positions@.take(i as int));
            assert(position_boards(more).drop_last() =~= position_boards(
                positions@.take(i as int),
            ));
        }
        i = i + 1;
    }
    assert(positions@.take(i as int) =~= positions@);
    TrainInput { boards, policies, values }
}

/// Whether a cell of a square kernel belongs to the hexagon inside it.
pub open spec fn in_hexagon(size: int, i: int, j: int) -> bool {
    size / 2 <= i + j < size / 2 + size
}

/// A mask for a convolution of a 2D hexagonal grid
///
/// For example, with kernel size 5 the following mask is applied to the kernel:
///
/// ```text
/// [[0, 0, 1, 1, 1],
///  [0, 1, 1, 1, 1],
///  [1, 1, 1, 1, 1],
///  [1, 1, 1, 1, 0],
///  [1, 1, 1, 0, 0]]
/// ```
pub fn hex_kernel_mask(size: usize) -> (mask: Vec<F32>)
    requires
        size % 2 == 1,
        size * size <= usize::MAX,
        2 * size <= usize::MAX,
    ensures
        mask@ == Seq::new(
            (size * size) as nat,
            |n: int| indicator(in_hexagon(size as int, n / size as int, n % size as int)),
        ),
{
    let fr: usize = size / 2;
    let to: usize = fr + size;
    let mut mask: Vec<F32> = Vec::new();
    let n: usize = size * size;
    let mut k: usize = 0;
    while k < n
        invariant
            n == size * size,
            size > 0,
            2 * size <= usize::MAX,
            fr == size / 2,
            to == fr + size,
            k <= n,
            mask@.len() == k,
            forall|m: int|
                0 <= m < k ==> #[trigger] mask@[m] == indicator(
                    in_hexagon(size as int, m / size as int, m % size as int),
                ),
        decreases n - k,
    {
        let i: usize = k / size;
        let j: usize = k % size;
        assert(i < size) by (nonlinear_arith)
            requires
                i == k as int / size as int,
                k < size * size,
                size > 0,
        ;
        let x: usize = i + j;
        mask.push(number(fr <= x && x < to));
        k = k + 1;
    }
    mask
}

} // verus!
