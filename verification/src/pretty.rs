//! A board as text for a terminal.

use vstd::prelude::*;
use vstd::string::*;
use crate::bb::Bitboard;
use crate::text::{
    decimal, decimal_text, left_aligned, push_left, push_repeated, push_right, repeated,
    right_aligned,
};

verus! {

/// A board to be shown.
pub struct BitboardPretty<'b>(pub &'b Bitboard);

/// The letter of a column.
pub open spec fn file_letter(c: int) -> char {
    (97 + c) as char
}

/// A space between two columns.
pub open spec fn gap(c: int) -> Seq<char> {
    if c == 0 {
        Seq::empty()
    } else {
        " "@
    }
}

/// The letters of the first `n` columns.
pub open spec fn files_text(n: nat) -> Seq<char>
    decreases n,
{
    if n == 0 {
        Seq::empty()
    } else {
        files_text((n - 1) as nat) + gap(n - 1) + "  "@ + seq![file_letter(n - 1)]
    }
}

/// A cell, in the color of its stone.
pub open spec fn cell_text(stone: Option<bool>) -> Seq<char> {
    match stone {
        Some(true) => "\x1b[41m X \x1b[0m"@,
        Some(false) => "\x1b[44m O \x1b[0m"@,
        None => " . "@,
    }
}

/// The first `n` cells of row `r`.
pub open spec fn cells_text(b: Bitboard, r: int, n: nat) -> Seq<char>
    decreases n,
{
    if n == 0 {
        Seq::empty()
    } else {
        cells_text(b, r, (n - 1) as nat) + gap(n - 1) + cell_text(b.stone(11 * r + n - 1))
    }
}

/// Row `r`: indented by its number, which stands at both ends.
pub open spec fn row_text(b: Bitboard, r: int) -> Seq<char> {
    repeated(' ', (2 * r) as nat) + right_aligned(decimal((r + 1) as nat), ' ', 2) + " "@
        + cells_text(b, r, 11) + " "@ + left_aligned(decimal((r + 1) as nat), ' ', 2) + "\n"@
}

/// The first `n` rows.
pub open spec fn rows_text(b: Bitboard, n: nat) -> Seq<char>
    decreases n,
{
    if n == 0 {
        Seq::empty()
    } else {
        rows_text(b, (n - 1) as nat) + row_text(b, n - 1)
    }
}

/// The whole board, with the letters of the columns above and below.
pub open spec fn board_text(b: Bitboard) -> Seq<char> {
    files_text(11) + "\n"@ + rows_text(b, 11) + repeated(' ', 24) + files_text(11)
}

/// Append the letters of the columns.
fn push_files(out: &mut String)
    ensures
        final(out)@ == old(out)@ + files_text(11),
{
    let mut c: u8 = 0;
    while c < 11
        invariant
            c <= 11,
            out@ == old(out)@ + files_text(c as nat),
        decreases 11 - c,
    {
        if c != 0 {
            out.append(" ");
        }
        out.append("  ");
        out.push((97 + c) as char);
        assert(out@ =~= old(out)@ + files_text((c + 1) as nat));
        c = c + 1;
    }
}

/// Append the cells of a row.
fn push_cells(out: &mut String, b: &Bitboard, r: usize)
    requires
        r < 11,
    ensures
        final(out)@ == old(out)@ + cells_text(*b, r as int, 11),
{
    let mut c: usize = 0;
    while c < 11
        invariant
            r < 11,
            c <= 11,
            out@ == old(out)@ + cells_text(*b, r as int, c as nat),
        decreases 11 - c,
    {
        if c != 0 {
            out.append(" ");
        }
        match b.rc(r, c) {
            Some(true) => out.append("\x1b[41m X \x1b[0m"),
            Some(false) => out.append("\x1b[44m O \x1b[0m"),
            None => out.append(" . "),
        }
        assert(out@ =~= old(out)@ + cells_text(*b, r as int, (c + 1) as nat));
        c = c + 1;
    }
}

impl<'b> BitboardPretty<'b> {
    /// The board as text: black's stones are `X` on red, white's are `O` on blue.
    pub fn text(&self) -> (text: String)
        ensures
            text@ == board_text(*self.0),
    {
        let b = self.0;
        let mut out = String::new();
        push_files(&mut out);
        out.append("\n");
        let ghost head = out@;
        let mut r: usize = 0;
        while r < 11
            invariant
                r <= 11,
                out@ == head + rows_text(*b, r as nat),
            decreases 11 - r,
        {
            let ghost before = out@;
            let number = decimal_text((r + 1) as u64);
            push_repeated(&mut out, ' ', 2 * r);
            push_right(&mut out, number.as_str(), ' ', 2);
            out.append(" ");
            push_cells(&mut out, b, r);
            out.append(" ");
            push_left(&mut out, number.as_str(), ' ', 2);
            out.append("\n");
            assert(out@ =~= before + row_text(*b, r as int));
            assert(out@ =~= head + rows_text(*b, (r + 1) as nat));
            r = r + 1;
        }
        push_repeated(&mut out, ' ', 24);
        push_files(&mut out);
        assert(out@ =~= board_text(*b));
        out
    }
}

} // verus!
