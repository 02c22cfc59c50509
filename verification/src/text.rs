//! Text: numbers in decimal and hexadecimal, padding.

use vstd::prelude::*;
use vstd::string::*;

verus! {

/// `String::push` appends one character.
pub assume_specification[ String::push ](s: &mut String, c: char)
    ensures
        final(s)@ == old(s)@.push(c),
;

/// The character of a digit of base sixteen or less.
pub open spec fn digit(d: int) -> char {
    if d < 10 {
        (48 + d) as char
    } else {
        (87 + d) as char
    }
}

/// A number in decimal, without leading zeros.
pub open spec fn decimal(n: nat) -> Seq<char>
    decreases n,
{
    if n < 10 {
        seq![digit(n as int)]
    } else {
        decimal(n / 10).push(digit((n % 10) as int))
    }
}

/// A number in lower case hexadecimal, without leading zeros.
pub open spec fn hexadecimal(n: nat) -> Seq<char>
    decreases n,
{
    if n < 16 {
        seq![digit(n as int)]
    } else {
        hexadecimal(n / 16).push(digit((n % 16) as int))
    }
}

/// `n` times the same character.
pub open spec fn repeated(c: char, n: nat) -> Seq<char> {
    Seq::new(n, |i: int| c)
}

/// Text moved to the right end of a field of at least `width` characters.
pub open spec fn right_aligned(text: Seq<char>, fill: char, width: nat) -> Seq<char> {
    if text.len() < width {
        repeated(fill, (width - text.len()) as nat) + text
    } else {
        text
    }
}

/// Text at the left end of a field of at least `width` characters.
pub open spec fn left_aligned(text: Seq<char>, fill: char, width: nat) -> Seq<char> {
    if text.len() < width {
        text + repeated(fill, (width - text.len()) as nat)
    } else {
        text
    }
}

/// The character of a digit.
fn digit_char(d: u8) -> (c: char)
    requires
        d < 16,
    ensures
        c == digit(d as int),
{
    if d < 10 {
        (48 + d) as char
    } else {
        (87 + d) as char
    }
}

/// Append a number in decimal.
pub fn push_decimal(out: &mut String, n: u64)
    ensures
        final(out)@ == old(out)@ + decimal(n as nat),
    decreases n,
{
    if n < 10 {
        out.push(digit_char(n as u8));
    } else {
        push_decimal(out, n / 10);
        out.push(digit_char((n % 10) as u8));
    }
}

/// Append a number in lower case hexadecimal.
pub fn push_hexadecimal(out: &mut String, n: u64)
    ensures
        final(out)@ == old(out)@ + hexadecimal(n as nat),
    decreases n,
{
    if n < 16 {
        out.push(digit_char(n as u8));
    } else {
        push_hexadecimal(out, n / 16);
        out.push(digit_char((n % 16) as u8));
    }
}

/// A number in decimal.
pub fn decimal_text(n: u64) -> (text: String)
    ensures
        text@ == decimal(n as nat),
{
    let mut out = String::new();
    push_decimal(&mut out, n);
    out
}

/// A number in lower case hexadecimal.
pub fn hexadecimal_text(n: u64) -> (text: String)
    ensures
        text@ == hexadecimal(n as nat),
{
    let mut out = String::new();
    push_hexadecimal(&mut out, n);
    out
}

/// Append a character many times.
pub fn push_repeated(out: &mut String, c: char, n: usize)
    ensures
        final(out)@ == old(out)@ + repeated(c, n as nat),
{
    let mut i: usize = 0;
    while i < n
        invariant
            i <= n,
            out@ == old(out)@ + repeated(c, i as nat),
        decreases n - i,
    {
        out.push(c);
        assert(repeated(c, (i + 1) as nat) == repeated(c, i as nat).push(c));
        i = i + 1;
    }
}

/// Append text at the right end of a field.
pub fn push_right(out: &mut String, text: &str, fill: char, width: usize)
    ensures
        final(out)@ == old(out)@ + right_aligned(text@, fill, width as nat),
{
    let len: usize = text.unicode_len();
    if len < width {
        push_repeated(out, fill, width - len);
    }
    out.append(text);
}

/// Append text at the left end of a field.
pub fn push_left(out: &mut String, text: &str, fill: char, width: usize)
    ensures
        final(out)@ == old(out)@ + left_aligned(text@, fill, width as nat),
{
    let len: usize = text.unicode_len();
    out.append(text);
    if len < width {
        push_repeated(out, fill, width - len);
    }
}

/// Whether the two texts hold the same characters.
pub fn same_text(a: &str, b: &str) -> (same: bool)
    ensures
        same == (a@ == b@),
{
    let n: usize = a.unicode_len();
    if n != b.unicode_len() {
        return false;
    }
    let mut i: usize = 0;
    while i < n
        invariant
            i <= n,
            n == a@.len(),
            n == b@.len(),
            a@.take(i as int) == b@.take(i as int),
        decreases n - i,
    {
        if a.get_char(i) != b.get_char(i) {
            return false;
        }
        assert(a@.take(i + 1) == a@.take(i as int).push(a@[i as int]));
        assert(b@.take(i + 1) == b@.take(i as int).push(b@[i as int]));
        i = i + 1;
    }
    assert(a@.take(n as int) == a@);
    assert(b@.take(n as int) == b@);
    true
}

/// A number in decimal consists of digits.
pub proof fn lemma_decimal_digits(n: nat)
    ensures
        decimal(n).len() >= 1,
        decimal(n).len() == 1 <==> n < 10,
        forall|i: int| 0 <= i < decimal(n).len() ==> '0' <= #[trigger] decimal(n)[i] <= '9',
    decreases n,
{
    if n >= 10 {
        lemma_decimal_digits(n / 10);
    }
}

/// Different numbers are written differently.
pub proof fn decimals_tell_numbers_apart(m: nat, n: nat)
    requires
        decimal(m) == decimal(n),
    ensures
        m == n,
    decreases m,
{
    lemma_decimal_digits(m);
    lemma_decimal_digits(n);
    if m < 10 {
        assert(decimal(m)[0] == decimal(n)[0]);
        assert(digit(m as int) as int == 48 + m);
        assert(digit(n as int) as int == 48 + n);
        assert(decimal(m)[0] == digit(m as int));
        assert(decimal(n)[0] == digit(n as int));
    } else {
        assert(decimal(m).last() == decimal(n).last());
        assert(decimal(m).drop_last() =~= decimal(m / 10));
        assert(decimal(n).drop_last() =~= decimal(n / 10));
        decimals_tell_numbers_apart(m / 10, n / 10);
        assert(digit((m % 10) as int) as int == 48 + m % 10);
        assert(digit((n % 10) as int) as int == 48 + n % 10);
        assert(decimal(m).last() == digit((m % 10) as int));
        assert(decimal(n).last() == digit((n % 10) as int));
    }
}

/// Text up to the first separator can be told from what follows.
pub proof fn lemma_split_at_separator(
    a: Seq<char>,
    b: Seq<char>,
    c: Seq<char>,
    d: Seq<char>,
    separator: char,
)
    requires
        a.push(separator) + b == c.push(separator) + d,
        forall|i: int| 0 <= i < a.len() ==> #[trigger] a[i] != separator,
        forall|i: int| 0 <= i < c.len() ==> #[trigger] c[i] != separator,
    ensures
        a == c,
        b == d,
{
    let left = a.push(separator) + b;
    let right = c.push(separator) + d;
    if a.len() < c.len() {
        assert(left[a.len() as int] == separator);
        assert(right[a.len() as int] == c[a.len() as int]);
    }
    if c.len() < a.len() {
        assert(right[c.len() as int] == separator);
        assert(left[c.len() as int] == a[c.len() as int]);
    }
    assert(a.len() == c.len());
    assert forall|i: int| 0 <= i < a.len() implies a[i] == c[i] by {
        assert(left[i] == a.push(separator)[i]);
        assert(right[i] == c.push(separator)[i]);
    }
    assert(a =~= c);
    assert(b =~= left.subrange((a.len() + 1) as int, left.len() as int));
    assert(d =~= right.subrange((c.len() + 1) as int, right.len() as int));
}

} // verus!
