//! Numbers as bytes, lowest first.

use vstd::prelude::*;

verus! {

/// The lowest `n` bytes of `x`, lowest first.
pub open spec fn le_bytes(x: nat, n: nat) -> Seq<u8>
    decreases n,
{
    if n == 0 {
        Seq::empty()
    } else {
        seq![(x % 256) as u8] + le_bytes(x / 256, (n - 1) as nat)
    }
}

/// The number with the given bytes, lowest first.
pub open spec fn le_value(bytes: Seq<u8>) -> nat
    decreases bytes.len(),
{
    if bytes.len() == 0 {
        0
    } else {
        bytes[0] as nat + 256 * le_value(bytes.drop_first())
    }
}

/// How many numbers `n` bytes can hold.
pub open spec fn le_range(n: nat) -> nat
    decreases n,
{
    if n == 0 {
        1
    } else {
        256 * le_range((n - 1) as nat)
    }
}

/// There are as many bytes as asked for, and the number can be read back if it fits.
pub proof fn bytes_give_the_number_back(x: nat, n: nat)
    ensures
        le_bytes(x, n).len() == n,
        x < le_range(n) ==> le_value(le_bytes(x, n)) == x,
    decreases n,
{
    if n > 0 {
        bytes_give_the_number_back(x / 256, (n - 1) as nat);
        assert(le_bytes(x, n).drop_first() =~= le_bytes(x / 256, (n - 1) as nat));
    }
}

/// The number fits, and gives the bytes back.
pub proof fn number_gives_the_bytes_back(bytes: Seq<u8>)
    ensures
        le_value(bytes) < le_range(bytes.len()),
        le_bytes(le_value(bytes), bytes.len()) == bytes,
    decreases bytes.len(),
{
    if bytes.len() > 0 {
        let rest = bytes.drop_first();
        number_gives_the_bytes_back(rest);
        let x = le_value(bytes);
        assert(x % 256 == bytes[0]);
        assert(x / 256 == le_value(rest));
        assert(seq![bytes[0]] + rest =~= bytes);
    }
}

/// The ranges of the numbers that positions are made of.
pub proof fn lemma_ranges()
    ensures
        le_range(4) == 0x1_0000_0000,
        le_range(16) == 0x1_0000_0000_0000_0000_0000_0000_0000_0000,
{
    reveal_with_fuel(le_range, 17);
}

/// Append the lowest `n` bytes of `x`.
pub fn push_le(out: &mut Vec<u8>, x: u128, n: usize)
    ensures
        final(out)@ == old(out)@ + le_bytes(x as nat, n as nat),
{
    let mut rest: u128 = x;
    let mut i: usize = 0;
    while i < n
        invariant
            i <= n,
            out@ + le_bytes(rest as nat, (n - i) as nat) == old(out)@ + le_bytes(
                x as nat,
                n as nat,
            ),
        decreases n - i,
    {
        let ghost before = out@;
        let low: u8 = (rest % 256) as u8;
        out.push(low);
        proof {
            let tail = le_bytes((rest / 256) as nat, (n - i - 1) as nat);
            assert(before + le_bytes(rest as nat, (n - i) as nat) =~= before.push(low) + tail);
        }
        rest = rest / 256;
        i = i + 1;
    }
    assert(out@ + le_bytes(rest as nat, 0) =~= out@);
}

/// The number that the `n` bytes from `start` on make.
pub fn read_le(bytes: &[u8], start: usize, n: usize) -> (x: u128)
    requires
        start + n <= bytes@.len(),
        n <= 16,
    ensures
        x == le_value(bytes@.subrange(start as int, start + n)),
{
    let mut x: u128 = 0;
    let mut i: usize = n;
    proof {
        assert(bytes@.len() == bytes.len());
        assert(bytes@.subrange(start + n, start + n).len() == 0);
    }
    while i > 0
        invariant
            i <= n,
            n <= 16,
            start + n <= bytes@.len(),
            start + n <= usize::MAX,
            x == le_value(bytes@.subrange(start + i, start + n)),
        decreases i,
    {
        i = i - 1;
        proof {
            let tail = bytes@.subrange(start + i + 1, start + n);
            let all = bytes@.subrange(start + i, start + n);
            assert(all.drop_first() =~= tail);
            number_gives_the_bytes_back(tail);
            number_gives_the_bytes_back(all);
            lemma_range_grows(tail.len(), 15);
            lemma_range_grows(all.len(), 16);
            lemma_ranges();
        }
        x = bytes[start + i] as u128 + 256 * x;
    }
    x
}

proof fn lemma_range_grows(m: nat, n: nat)
    requires
        m <= n,
    ensures
        le_range(m) <= le_range(n),
    decreases n,
{
    if m < n {
        lemma_range_grows(m, (n - 1) as nat);
        assert(le_range((n - 1) as nat) >= 0);
    }
}

} // verus!
