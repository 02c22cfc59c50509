//! Positions as text for a terminal, and moves by policy alone.

use vstd::prelude::*;
use vstd::string::*;
use crate::bb::Bitboard;
use crate::nn::search::{f32_ranks, policy_argmax};
use crate::text::{decimal, push_decimal, push_repeated, repeated};
use crate::util::{is_last_max, F32};

verus! {

/// A policy that gives nothing to moves that cannot be made.
pub open spec fn masked(board: Bitboard, policy: Seq<F32>) -> Seq<F32> {
    Seq::new(
        policy.len(),
        |n: int|
            if board.stone(n) is None {
                policy[n]
            } else {
                F32(0)
            },
    )
}

/// The policy with zero for the moves that cannot be made.
pub fn masked_policy(board: Bitboard, policy: &Vec<F32>) -> (legal: Vec<F32>)
    requires
        policy@.len() <= 121,
    ensures
        legal@ == masked(board, policy@),
{
    let mut legal: Vec<F32> = Vec::new();
    let mut n: usize = 0;
    while n < policy.len()
        invariant
            n <= policy@.len(),
            policy@.len() <= 121,
            legal@ == masked(board, policy@).take(n as int),
        decreases policy@.len() - n,
    {
        let x = if board.nth_child_valid(n) {
            policy[n]
        } else {
            F32(0)
        };
        legal.push(x);
        assert(legal@ =~= masked(board, policy@).take(n + 1));
        n = n + 1;
    }
    assert(masked(board, policy@).take(n as int) =~= masked(board, policy@));
    legal
}

/// The board after the move that a policy prefers, of all cells. Whether that cell is empty is not
/// asked.
pub fn play_policy(board: Bitboard, policy: &Vec<F32>) -> (next: Option<Bitboard>)
    requires
        policy@.len() <= 121,
    ensures
        next is None <==> policy@.len() == 0,
        next matches Some(next) ==> exists|n: int|
            #[trigger] is_last_max(f32_ranks(policy@), n) && next == board.played(n),
{
    match policy_argmax(policy) {
        Some(n) => Some(board.nth_child(n)),
        None => None,
    }
}

/// How an empty cell is shown: a number, in a shade of grey.
#[derive(Debug)]
pub struct Shade {
    pub color: u8,
    pub number: String,
}

/// A cell of a position.
pub open spec fn shaded_cell(stone: Option<bool>, shade: Shade) -> Seq<char> {
    match stone {
        Some(true) => "\x1b[31m\x1b[48;5;232m○ \x1b[0m"@,
        Some(false) => "\x1b[36m\x1b[48;5;232m○ \x1b[0m"@,
        None => "\x1b[48;5;232;38;5;"@ + decimal(shade.color as nat) + "m"@ + shade.number@
            + "\x1b[0m"@,
    }
}

/// The first `n` cells of row `r` of a position.
pub open spec fn shaded_cells(board: Bitboard, shades: Seq<Shade>, r: int, n: nat) -> Seq<char>
    decreases n,
{
    if n == 0 {
        Seq::empty()
    } else {
        shaded_cells(board, shades, r, (n - 1) as nat) + shaded_cell(
            board.stone(11 * r + n - 1),
            shades[11 * r + n - 1],
        )
    }
}

/// The first `n` rows of a position.
pub open spec fn shaded_rows(board: Bitboard, shades: Seq<Shade>, n: nat) -> Seq<char>
    decreases n,
{
    if n == 0 {
        Seq::empty()
    } else {
        shaded_rows(board, shades, (n - 1) as nat) + repeated(' ', (n - 1) as nat) + "\\"@
            + shaded_cells(board, shades, n - 1, 11) + "\\\n"@
    }
}

/// Append a row of cells.
fn push_shaded(out: &mut String, board: Bitboard, shades: &Vec<Shade>, r: usize)
    requires
        r < 11,
        shades@.len() == 121,
    ensures
        final(out)@ == old(out)@ + shaded_cells(board, shades@, r as int, 11),
{
    let mut c: usize = 0;
    while c < 11
        invariant
            r < 11,
            c <= 11,
            shades@.len() == 121,
            out@ == old(out)@ + shaded_cells(board, shades@, r as int, c as nat),
        decreases 11 - c,
    {
        let ghost before = out@;
        match board.rc(r, c) {
            Some(true) => out.append("\x1b[31m\x1b[48;5;232m○ \x1b[0m"),
            Some(false) => out.append("\x1b[36m\x1b[48;5;232m○ \x1b[0m"),
            None => {
                let shade = &shades[r * 11 + c];
                out.append("\x1b[48;5;232;38;5;");
                push_decimal(out, shade.color as u64);
                out.append("m");
                out.append(shade.number.as_str());
                out.append("\x1b[0m");
            },
        }
        assert(out@ =~= before + shaded_cell(board.stone(11 * r + c), shades@[11 * r + c]));
        assert(out@ =~= old(out)@ + shaded_cells(board, shades@, r as int, (c + 1) as nat));
        c = c + 1;
    }
}

/// A position as text: stones, and shades for what a search thought of the empty cells.
pub fn position_text(board: Bitboard, shades: &Vec<Shade>) -> (text: String)
    requires
        shades@.len() == 121,
    ensures
        text@ == shaded_rows(board, shades@, 11),
{
    let mut out = String::new();
    let mut r: usize = 0;
    while r < 11
        invariant
            r <= 11,
            shades@.len() == 121,
            out@ == shaded_rows(board, shades@, r as nat),
        decreases 11 - r,
    {
        push_repeated(&mut out, ' ', r);
        out.append("\\");
        push_shaded(&mut out, board, shades, r);
        out.append("\\\n");
        assert(out@ =~= shaded_rows(board, shades@, (r + 1) as nat));
        r = r + 1;
    }
    out
}

} // verus!
