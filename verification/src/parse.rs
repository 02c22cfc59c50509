//! Numbers, pairs and boards from text.

use vstd::prelude::*;
use vstd::string::*;
use crate::bb::Bitboard;
use crate::bits::{
    bits_where, has_bit, lemma_bits_where, lemma_is_bits_where, lemma_ops, lemma_single,
};
use crate::text::{decimal, digit};

verus! {

/// Whether the character is a decimal digit.
pub open spec fn is_digit(c: char) -> bool {
    '0' <= c <= '9'
}

/// Whether the text consists of digits.
pub open spec fn all_digits(text: Seq<char>) -> bool {
    forall|i: int| 0 <= i < text.len() ==> is_digit(#[trigger] text[i])
}

/// The number that digits stand for.
pub open spec fn digits_value(text: Seq<char>) -> nat
    decreases text.len(),
{
    if text.len() == 0 {
        0
    } else {
        (10 * digits_value(text.drop_last()) + (text.last() as int - 48)) as nat
    }
}

/// The text behind an optional plus sign.
pub open spec fn unsigned_part(text: Seq<char>) -> Seq<char> {
    if text.len() > 0 && text[0] == '+' {
        text.drop_first()
    } else {
        text
    }
}

/// The number that the text stands for: an optional plus sign and digits, with nothing else, for
/// a number of at most `limit`.
pub open spec fn unsigned_value(text: Seq<char>, limit: nat) -> Option<nat> {
    let part = unsigned_part(text);
    if part.len() > 0 && all_digits(part) && digits_value(part) <= limit {
        Some(digits_value(part))
    } else {
        None
    }
}

/// Digits never make the number smaller.
proof fn lemma_value_grows(text: Seq<char>, n: int)
    requires
        0 <= n <= text.len(),
        all_digits(text),
    ensures
        digits_value(text.take(n)) <= digits_value(text),
    decreases text.len() - n,
{
    if n < text.len() {
        lemma_value_grows(text, n + 1);
        assert(text.take(n + 1).drop_last() =~= text.take(n));
        assert(is_digit(text[n]));
    } else {
        assert(text.take(n) =~= text);
    }
}

/// The number that the text stands for, if it is at most `limit`.
pub fn parse_unsigned(text: &str, limit: u64) -> (value: Option<u64>)
    ensures
        value is Some <==> unsigned_value(text@, limit as nat) is Some,
        value matches Some(n) ==> unsigned_value(text@, limit as nat) == Some(n as nat),
{
    let len: usize = text.unicode_len();
    let start: usize = if len > 0 && text.get_char(0) == '+' {
        1
    } else {
        0
    };
    let ghost part = unsigned_part(text@);
    assert(part =~= text@.skip(start as int));
    if start == len {
        return None;
    }
    let mut value: u64 = 0;
    let mut i: usize = start;
    assert(part.take(0).len() == 0);
    while i < len
        invariant
            start <= i <= len,
            len == text@.len(),
            start <= 1,
            part == unsigned_part(text@),
            part == text@.skip(start as int),
            part.len() > 0,
            all_digits(part.take(i - start)),
            value == digits_value(part.take(i - start)),
            value <= limit,
        decreases len - i,
    {
        let c = text.get_char(i);
        let ghost done = part.take(i - start);
        proof {
            assert(part[i - start] == c);
            assert(part.take(i + 1 - start).drop_last() =~= done);
            assert(part.take(i + 1 - start).last() == c);
        }
        if !(c >= '0' && c <= '9') {
            proof {
                assert(!is_digit(part[i - start]));
            }
            return None;
        }
        let d: u64 = (c as u32 - 48) as u64;
        if d > limit || value > limit / 10 || value * 10 > limit - d {
            proof {
                if all_digits(part) {
                    lemma_value_grows(part, i + 1 - start);
                    assert(digits_value(part.take(i + 1 - start)) == 10 * value + d);
                    assert(10 * value + d > limit);
                }
            }
            return None;
        }
        value = value * 10 + d;
        proof {
            assert forall|j: int| 0 <= j < i + 1 - start implies is_digit(
                #[trigger] part.take(i + 1 - start)[j],
            ) by {
                if j < i - start {
                    assert(is_digit(done[j]));
                }
            }
        }
        i = i + 1;
    }
    assert(part.take(i - start) =~= part);
    Some(value)
}

/// The number of things that the text stands for.
pub fn parse_count(text: &str) -> (value: Option<usize>)
    ensures
        value is Some <==> unsigned_value(text@, usize::MAX as nat) is Some,
        value matches Some(n) ==> unsigned_value(text@, usize::MAX as nat) == Some(n as nat),
{
    match parse_unsigned(text, usize::MAX as u64) {
        Some(n) => Some(n as usize),
        None => None,
    }
}

/// A number in decimal is read back as the number.
pub proof fn a_decimal_is_read_back(n: nat, limit: nat)
    requires
        n <= limit,
    ensures
        unsigned_value(decimal(n), limit) == Some(n),
{
    lemma_decimal_value(n);
    assert(decimal(n)[0] != '+') by {
        assert(is_digit(decimal(n)[0]));
    }
}

proof fn lemma_decimal_value(n: nat)
    ensures
        decimal(n).len() > 0,
        all_digits(decimal(n)),
        digits_value(decimal(n)) == n,
    decreases n,
{
    if n < 10 {
        let text = decimal(n);
        assert(digit(n as int) as int == 48 + n);
        assert(text.drop_last().len() == 0);
        assert(text.last() == digit(n as int));
        assert(digits_value(text.drop_last()) == 0);
    } else {
        lemma_decimal_value(n / 10);
        let text = decimal(n);
        assert(digit((n % 10) as int) as int == 48 + n % 10);
        assert(text.drop_last() =~= decimal(n / 10));
        assert(text.last() == digit((n % 10) as int));
        assert forall|i: int| 0 <= i < text.len() implies is_digit(#[trigger] text[i]) by {
            if i < text.len() - 1 {
                assert(is_digit(decimal(n / 10)[i]));
            }
        }
    }
}

/// Whether the comma at place `i` is the first.
pub open spec fn first_comma(text: Seq<char>, i: int) -> bool {
    &&& 0 <= i < text.len()
    &&& text[i] == ','
    &&& forall|j: int| 0 <= j < i ==> #[trigger] text[j] != ','
}

/// The parts before and behind the first comma.
pub fn split_pair<'a>(text: &'a str) -> (parts: Option<(&'a str, &'a str)>)
    ensures
        parts is None <==> forall|i: int| 0 <= i < text@.len() ==> #[trigger] text@[i] != ',',
        parts matches Some((a, b)) ==> first_comma(text@, a@.len() as int) && text@ == a@ + seq![
            ',',
        ] + b@,
{
    let len: usize = text.unicode_len();
    let mut i: usize = 0;
    while i < len
        invariant
            i <= len,
            len == text@.len(),
            forall|j: int| 0 <= j < i ==> #[trigger] text@[j] != ',',
        decreases len - i,
    {
        if text.get_char(i) == ',' {
            let a = text.substring_char(0, i);
            let b = text.substring_char(i + 1, len);
            assert(text@ =~= a@ + seq![','] + b@);
            return Some((a, b));
        }
        i = i + 1;
    }
    None
}

/// Whether the text starts with the given one.
pub fn has_prefix(text: &str, prefix: &str) -> (has: bool)
    ensures
        has == prefix@.is_prefix_of(text@),
{
    let n: usize = prefix.unicode_len();
    if text.unicode_len() < n {
        return false;
    }
    let mut i: usize = 0;
    while i < n
        invariant
            i <= n,
            n == prefix@.len(),
            n <= text@.len(),
            forall|j: int| 0 <= j < i ==> prefix@[j] == #[trigger] text@[j],
        decreases n - i,
    {
        if text.get_char(i) != prefix.get_char(i) {
            return false;
        }
        i = i + 1;
    }
    assert(prefix@ =~= text@.subrange(0, n as int));
    true
}

/// Whether the character says something of a cell.
pub open spec fn is_cell_char(c: char) -> bool {
    c == '.' || c == 'b' || c == 'w'
}

/// The characters that say something of a cell.
pub open spec fn cell_chars(text: Seq<char>) -> Seq<char>
    decreases text.len(),
{
    if text.len() == 0 {
        Seq::empty()
    } else if is_cell_char(text.last()) {
        cell_chars(text.drop_last()).push(text.last())
    } else {
        cell_chars(text.drop_last())
    }
}

/// The board whose cells are described by the first 121 characters that say something of a cell,
/// black to move.
pub open spec fn board_of_text(text: Seq<char>) -> Bitboard {
    let cells = cell_chars(text);
    Bitboard {
        black: bits_where(
            |k: int| k == 127 || (k < 121 && 120 - k < cells.len() && cells[120 - k] == 'b'),
        ),
        white: bits_where(|k: int| k < 121 && 120 - k < cells.len() && cells[120 - k] == 'w'),
    }
}

proof fn lemma_cell_chars_prefix(text: Seq<char>, n: int)
    requires
        0 <= n <= text.len(),
    ensures
        cell_chars(text.take(n)).len() <= cell_chars(text).len(),
        cell_chars(text).take(cell_chars(text.take(n)).len() as int) == cell_chars(text.take(n)),
    decreases text.len() - n,
{
    if n < text.len() {
        lemma_cell_chars_prefix(text, n + 1);
        let less = cell_chars(text.take(n));
        let more = cell_chars(text.take(n + 1));
        assert(text.take(n + 1).drop_last() =~= text.take(n));
        assert(more.take(less.len() as int) =~= less);
        assert(cell_chars(text).take(less.len() as int) =~= more.take(less.len() as int));
    } else {
        assert(text.take(n) =~= text);
        assert(cell_chars(text).take(cell_chars(text).len() as int) =~= cell_chars(text));
    }
}

/// Set the bit of the next cell.
fn with_cell(x: u128, i: usize) -> (y: u128)
    requires
        i < 121,
    ensures
        forall|k: int|
            0 <= k < 128 ==> #[trigger] has_bit(y, k) == (has_bit(x, k) || k == 120 - i),
{
    let m: u128 = 1u128 << ((120 - i) as u128);
    proof {
        assert forall|k: int| 0 <= k < 128 implies #[trigger] has_bit(x | m, k) == (has_bit(x, k)
            || k == 120 - i) by {
            lemma_single(120 - i, k);
            lemma_ops(x, m, k);
        }
    }
    x | m
}

/// The board that a text describes: `b` and `w` are stones, `.` is an empty cell, and other
/// characters are passed over.
pub fn parse_board(text: &str) -> (board: Bitboard)
    ensures
        board == board_of_text(text@),
{
    let mut board = Bitboard::new();
    proof {
        assert forall|k: int| 0 <= k < 128 implies #[trigger] has_bit(board.black, k) == (k
            == 127) by {
            if k < 121 {
                assert(board.stone(120 - k) is None);
            }
        }
        assert forall|k: int| 0 <= k < 128 implies !#[trigger] has_bit(board.white, k) by {
            if k < 121 {
                assert(board.stone(120 - k) is None);
            } else if k < 127 {
                assert(!has_bit(board.black, k));
            }
        }
    }
    let len: usize = text.unicode_len();
    let ghost cells = cell_chars(text@);
    let mut i: usize = 0;
    let mut at: usize = 0;
    assert(text@.take(0).len() == 0);
    while at < len && i < 121
        invariant
            at <= len,
            len == text@.len(),
            cells == cell_chars(text@),
            i <= 121,
            i == cell_chars(text@.take(at as int)).len(),
            i <= cells.len(),
            forall|k: int|
                0 <= k < 128 ==> #[trigger] has_bit(board.black, k) == (k == 127 || (k < 121 && 120
                    - k < i && cells[120 - k] == 'b')),
            forall|k: int|
                0 <= k < 128 ==> #[trigger] has_bit(board.white, k) == (k < 121 && 120 - k < i
                    && cells[120 - k] == 'w'),
        decreases len - at,
    {
        let c = text.get_char(at);
        proof {
            let before = cell_chars(text@.take(at as int));
            assert(text@.take(at + 1).drop_last() =~= text@.take(at as int));
            lemma_cell_chars_prefix(text@, at + 1);
            if is_cell_char(c) {
                let now = cell_chars(text@.take(at + 1));
                assert(now == before.push(c));
                assert(cells.take(now.len() as int)[i as int] == c);
                assert(cells[i as int] == c);
            }
        }
        if c == 'b' {
            board.black = with_cell(board.black, i);
            i = i + 1;
        } else if c == 'w' {
            board.white = with_cell(board.white, i);
            i = i + 1;
        } else if c == '.' {
            i = i + 1;
        }
        at = at + 1;
    }
    proof {
        assert(at == len ==> text@.take(at as int) =~= text@);
        let f = |k: int| k == 127 || (k < 121 && 120 - k < cells.len() && cells[120 - k] == 'b');
        let g = |k: int| k < 121 && 120 - k < cells.len() && cells[120 - k] == 'w';
        assert(forall|k: int| 0 <= k < 128 ==> #[trigger] has_bit(board.black, k) == f(k));
        assert(forall|k: int| 0 <= k < 128 ==> #[trigger] has_bit(board.white, k) == g(k));
        lemma_is_bits_where(board.black, f);
        lemma_is_bits_where(board.white, g);
    }
    board
}

/// Whatever the text, the board is well formed with black to move, and each cell is as described.
pub proof fn a_parsed_board_is_as_described(text: Seq<char>)
    ensures
        board_of_text(text).wf(),
        board_of_text(text).black_next(),
        forall|n: int|
            0 <= n < 121 ==> #[trigger] board_of_text(text).stone(n) == (if n < cell_chars(
                text,
            ).len() && cell_chars(text)[n] == 'b' {
                Some(true)
            } else if n < cell_chars(text).len() && cell_chars(text)[n] == 'w' {
                Some(false)
            } else {
                None
            }),
{
    let cells = cell_chars(text);
    let board = board_of_text(text);
    lemma_bits_where(
        |k: int| k == 127 || (k < 121 && 120 - k < cells.len() && cells[120 - k] == 'b'),
    );
    lemma_bits_where(|k: int| k < 121 && 120 - k < cells.len() && cells[120 - k] == 'w');
    assert forall|k: int| 0 <= k < 121 implies !(#[trigger] has_bit(board.black, k) && has_bit(
        board.white,
        k,
    )) by {
        assert(has_bit(board.white, k) == (120 - k < cells.len() && cells[120 - k] == 'w'));
    }
    assert forall|k: int| 121 <= k < 127 implies !#[trigger] has_bit(board.black, k) && !has_bit(
        board.white,
        k,
    ) by {
        assert(!has_bit(board.white, k));
    }
    assert(has_bit(board.black, 127));
    assert(!has_bit(board.white, 127));
}

} // verus!
