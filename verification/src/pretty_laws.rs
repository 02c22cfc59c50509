//! What holds of every board that is shown as text.

use vstd::prelude::*;
use vstd::string::*;
use crate::bb::Bitboard;
use crate::pretty::{
    board_text, cell_text, cells_text, file_letter, files_text, gap, row_text, rows_text,
    BitboardPretty,
};
use crate::text::{decimal, left_aligned, lemma_decimal_digits, repeated, right_aligned};

verus! {

/// Whether a character stands for a cell, or ends a line.
pub open spec fn is_mark(c: char) -> bool {
    c == 'X' || c == 'O' || c == '.' || c == '\n'
}

/// The characters that stand for cells or end lines, in their order.
pub open spec fn marks(text: Seq<char>) -> Seq<char>
    decreases text.len(),
{
    if text.len() == 0 {
        Seq::empty()
    } else if is_mark(text.last()) {
        marks(text.drop_last()).push(text.last())
    } else {
        marks(text.drop_last())
    }
}

/// What stands for a cell: `X` for black's stone, `O` for white's, a dot for none.
pub open spec fn mark_of(stone: Option<bool>) -> char {
    match stone {
        Some(true) => 'X',
        Some(false) => 'O',
        None => '.',
    }
}

proof fn lemma_marks_add(a: Seq<char>, b: Seq<char>)
    ensures
        marks(a + b) == marks(a) + marks(b),
    decreases b.len(),
{
    if b.len() == 0 {
        assert(a + b =~= a);
        assert(marks(a) + marks(b) =~= marks(a));
    } else {
        lemma_marks_add(a, b.drop_last());
        assert((a + b).drop_last() =~= a + b.drop_last());
        assert((a + b).last() == b.last());
        if is_mark(b.last()) {
            assert(marks(a + b) =~= marks(a) + marks(b));
        }
    }
}

/// A text without marks.
proof fn lemma_no_marks(text: Seq<char>)
    requires
        forall|i: int| 0 <= i < text.len() ==> !is_mark(#[trigger] text[i]),
    ensures
        marks(text) == Seq::<char>::empty(),
    decreases text.len(),
{
    if text.len() > 0 {
        let less = text.drop_last();
        assert forall|i: int| 0 <= i < less.len() implies !is_mark(#[trigger] less[i]) by {
            assert(less[i] == text[i]);
        }
        lemma_no_marks(less);
        assert(!is_mark(text[text.len() - 1]));
    }
}

/// A text with one mark.
proof fn lemma_one_mark(text: Seq<char>, k: int)
    requires
        0 <= k < text.len(),
        is_mark(text[k]),
        forall|i: int| 0 <= i < text.len() && i != k ==> !is_mark(#[trigger] text[i]),
    ensures
        marks(text) == seq![text[k]],
    decreases text.len(),
{
    let less = text.drop_last();
    if k == text.len() - 1 {
        lemma_no_marks(less);
        assert(marks(text) =~= seq![text[k]]);
    } else {
        assert(!is_mark(text[text.len() - 1]));
        assert forall|i: int| 0 <= i < less.len() && i != k implies !is_mark(
            #[trigger] less[i],
        ) by {
            assert(less[i] == text[i]);
        }
        lemma_one_mark(less, k);
    }
}

proof fn lemma_cell(stone: Option<bool>)
    ensures
        marks(cell_text(stone)) == seq![mark_of(stone)],
{
    reveal_strlit("\x1b[41m X \x1b[0m");
    reveal_strlit("\x1b[44m O \x1b[0m");
    reveal_strlit(" . ");
    match stone {
        Some(true) => lemma_one_mark(cell_text(stone), 6),
        Some(false) => lemma_one_mark(cell_text(stone), 6),
        None => lemma_one_mark(cell_text(stone), 1),
    }
}

proof fn lemma_gap(c: int)
    ensures
        marks(gap(c)) == Seq::<char>::empty(),
        marks(" "@) == Seq::<char>::empty(),
        marks("  "@) == Seq::<char>::empty(),
        marks("\n"@) == seq!['\n'],
{
    reveal_strlit(" ");
    reveal_strlit("  ");
    reveal_strlit("\n");
    lemma_no_marks(" "@);
    lemma_no_marks("  "@);
    lemma_no_marks(gap(c));
    lemma_one_mark("\n"@, 0);
}

proof fn lemma_cells(b: Bitboard, r: int, n: nat)
    ensures
        marks(cells_text(b, r, n)) == Seq::new(n, |c: int| mark_of(b.stone(11 * r + c))),
    decreases n,
{
    let all = Seq::new(n, |c: int| mark_of(b.stone(11 * r + c)));
    if n == 0 {
        assert(marks(cells_text(b, r, n)) =~= all);
    } else {
        lemma_cells(b, r, (n - 1) as nat);
        let head = cells_text(b, r, (n - 1) as nat);
        let stone = b.stone(11 * r + n - 1);
        lemma_gap(n - 1);
        lemma_cell(stone);
        lemma_marks_add(head + gap(n - 1), cell_text(stone));
        lemma_marks_add(head, gap(n - 1));
        assert(marks(cells_text(b, r, n)) =~= all);
    }
}

proof fn lemma_files(n: nat)
    requires
        n <= 11,
    ensures
        marks(files_text(n)) == Seq::<char>::empty(),
    decreases n,
{
    if n > 0 {
        lemma_files((n - 1) as nat);
        let head = files_text((n - 1) as nat);
        let letter = seq![file_letter(n - 1)];
        lemma_gap(n - 1);
        lemma_no_marks(letter);
        lemma_marks_add(head + gap(n - 1) + "  "@, letter);
        lemma_marks_add(head + gap(n - 1), "  "@);
        lemma_marks_add(head, gap(n - 1));
        assert(marks(files_text(n)) =~= Seq::<char>::empty());
    }
}

proof fn lemma_spaces(n: nat)
    ensures
        marks(repeated(' ', n)) == Seq::<char>::empty(),
{
    lemma_no_marks(repeated(' ', n));
}

proof fn lemma_number(n: nat)
    ensures
        marks(right_aligned(decimal(n), ' ', 2)) == Seq::<char>::empty(),
        marks(left_aligned(decimal(n), ' ', 2)) == Seq::<char>::empty(),
{
    lemma_decimal_digits(n);
    lemma_no_marks(right_aligned(decimal(n), ' ', 2));
    lemma_no_marks(left_aligned(decimal(n), ' ', 2));
}

proof fn lemma_row(b: Bitboard, r: int)
    requires
        0 <= r < 11,
    ensures
        marks(row_text(b, r)) == Seq::new(11, |c: int| mark_of(b.stone(11 * r + c))).push('\n'),
{
    let indent = repeated(' ', (2 * r) as nat);
    let left = right_aligned(decimal((r + 1) as nat), ' ', 2);
    let cells = cells_text(b, r, 11);
    let right = left_aligned(decimal((r + 1) as nat), ' ', 2);
    lemma_spaces((2 * r) as nat);
    lemma_number((r + 1) as nat);
    lemma_cells(b, r, 11);
    lemma_gap(0);
    lemma_marks_add(indent, left);
    lemma_marks_add(indent + left, " "@);
    lemma_marks_add(indent + left + " "@, cells);
    lemma_marks_add(indent + left + " "@ + cells, " "@);
    lemma_marks_add(indent + left + " "@ + cells + " "@, right);
    lemma_marks_add(indent + left + " "@ + cells + " "@ + right, "\n"@);
    assert(marks(row_text(b, r)) =~= Seq::new(
        11,
        |c: int| mark_of(b.stone(11 * r + c)),
    ).push('\n'));
}

proof fn lemma_rows(b: Bitboard, n: nat, row: int, col: int)
    requires
        n <= 11,
    ensures
        marks(rows_text(b, n)).len() == 12 * n,
        0 <= row < n && 0 <= col < 11 ==> marks(rows_text(b, n))[12 * row + col] == mark_of(
            b.stone(11 * row + col),
        ),
        0 <= row < n ==> marks(rows_text(b, n))[12 * row + 11] == '\n',
    decreases n,
{
    if n > 0 {
        lemma_rows(b, (n - 1) as nat, row, col);
        lemma_row(b, n - 1);
        lemma_marks_add(rows_text(b, (n - 1) as nat), row_text(b, n - 1));
    }
}

/// The text of a board has a line for the letters, then a line for each row with its eleven cells in
/// their order: `X` where black has a stone, `O` where white has one, a dot where nobody has; and
/// behind them no cell any more.
pub proof fn each_cell_is_shown_in_its_row<'b>(
    shown: &BitboardPretty<'b>,
    text: String,
    row: int,
    col: int,
)
    requires
        call_ensures(BitboardPretty::<'b>::text, (shown,), text),
        0 <= row < 11,
        0 <= col < 11,
    ensures
        marks(text@).len() == 1 + 12 * 11,
        marks(text@)[0] == '\n',
        marks(text@)[1 + 12 * row + col] == mark_of(shown.0.stone(11 * row + col)),
        marks(text@)[1 + 12 * row + 11] == '\n',
{
    let b = *shown.0;
    let files = files_text(11);
    let rows = rows_text(b, 11);
    let indent = repeated(' ', 24);
    assert(text@ == board_text(b));
    lemma_files(11);
    lemma_gap(0);
    lemma_rows(b, 11, row, col);
    lemma_spaces(24);
    lemma_marks_add(files, "\n"@);
    lemma_marks_add(files + "\n"@, rows);
    lemma_marks_add(files + "\n"@ + rows, indent);
    lemma_marks_add(files + "\n"@ + rows + indent, files);
    assert(marks(text@) =~= seq!['\n'] + marks(rows));
}

} // verus!
