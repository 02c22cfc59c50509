//! Facts about the bits of a `u128`.

use vstd::prelude::*;

verus! {

/// Whether bit `k` of `x` is set.
pub open spec fn has_bit(x: u128, k: int) -> bool {
    0 <= k < 128 && (x >> (k as u128)) & 1 == 1
}

/// How many of the lowest `n` bits of `x` are set.
pub open spec fn ones_below(x: u128, n: nat) -> nat
    decreases n,
{
    if n == 0 {
        0
    } else {
        ones_below(x, (n - 1) as nat) + if has_bit(x, n - 1) {
            1nat
        } else {
            0nat
        }
    }
}

/// `u128::count_ones` returns how many of the 128 bits are set.
pub assume_specification[ u128::count_ones ](x: u128) -> (count: u32)
    ensures
        count == ones_below(x, 128),
;

proof fn lemma_ops_raw(x: u128, y: u128, k: u128)
    by (bit_vector)
    requires
        k < 128,
    ensures
        ((x | y) >> k) & 1 == 1 <==> ((x >> k) & 1 == 1 || (y >> k) & 1 == 1),
        ((x & y) >> k) & 1 == 1 <==> ((x >> k) & 1 == 1 && (y >> k) & 1 == 1),
        ((x ^ y) >> k) & 1 == 1 <==> ((x >> k) & 1 == 1) != ((y >> k) & 1 == 1),
        ((!x) >> k) & 1 == 1 <==> (x >> k) & 1 != 1,
        (0u128 >> k) & 1 == 0,
{
}

proof fn lemma_single_raw(j: u128, k: u128)
    by (bit_vector)
    requires
        j < 128,
        k < 128,
    ensures
        ((1u128 << j) >> k) & 1 == 1 <==> j == k,
{
}

proof fn lemma_shift_raw(x: u128, k: u128)
    by (bit_vector)
    requires
        k < 128,
    ensures
        x >> k == ((x >> ((k + 1) as u128)) << 1) | ((x >> k) & 1),
        (x >> k) & 1 == 0 || (x >> k) & 1 == 1,
        x >> 128 == 0,
        x >> 0 == x,
{
}

/// The bits of the bitwise operators.
pub proof fn lemma_ops(x: u128, y: u128, k: int)
    requires
        0 <= k < 128,
    ensures
        has_bit(x | y, k) == (has_bit(x, k) || has_bit(y, k)),
        has_bit(x & y, k) == (has_bit(x, k) && has_bit(y, k)),
        has_bit(x ^ y, k) == (has_bit(x, k) != has_bit(y, k)),
        has_bit(!x, k) == !has_bit(x, k),
        !has_bit(0, k),
{
    lemma_ops_raw(x, y, k as u128);
}

/// The one bit of a power of two.
pub proof fn lemma_single(j: int, k: int)
    requires
        0 <= j < 128,
        0 <= k < 128,
    ensures
        has_bit(1u128 << (j as u128), k) == (j == k),
{
    lemma_single_raw(j as u128, k as u128);
}

/// Numbers with the same bits are equal.
pub proof fn lemma_same_bits(a: u128, b: u128)
    requires
        forall|k: int| 0 <= k < 128 ==> #[trigger] has_bit(a, k) == has_bit(b, k),
    ensures
        a == b,
{
    lemma_shift_raw(a, 0);
    lemma_shift_raw(b, 0);
    lemma_same_above(a, b, 0);
}

proof fn lemma_same_above(a: u128, b: u128, k: int)
    requires
        0 <= k <= 128,
        forall|k: int| 0 <= k < 128 ==> #[trigger] has_bit(a, k) == has_bit(b, k),
    ensures
        a >> (k as u128) == b >> (k as u128),
    decreases 128 - k,
{
    lemma_shift_raw(a, 0);
    lemma_shift_raw(b, 0);
    if k < 128 {
        lemma_same_above(a, b, k + 1);
        lemma_shift_raw(a, k as u128);
        lemma_shift_raw(b, k as u128);
        assert(has_bit(a, k) == has_bit(b, k));
    }
}

/// A number other than zero has a bit set.
pub proof fn lemma_some_bit(x: u128) -> (k: int)
    requires
        x != 0,
    ensures
        0 <= k < 128,
        has_bit(x, k),
{
    if forall|k: int| 0 <= k < 128 ==> !#[trigger] has_bit(x, k) {
        assert forall|k: int| 0 <= k < 128 implies #[trigger] has_bit(x, k) == has_bit(0, k) by {
            lemma_ops(0, 0, k);
        }
        lemma_same_bits(x, 0);
    }
    choose|k: int| 0 <= k < 128 && has_bit(x, k)
}

/// Numbers that agree on the lowest `n` bits have as many of them set.
pub proof fn lemma_ones_same(a: u128, b: u128, n: nat)
    requires
        n <= 128,
        forall|k: int| 0 <= k < n ==> #[trigger] has_bit(a, k) == has_bit(b, k),
    ensures
        ones_below(a, n) == ones_below(b, n),
    decreases n,
{
    if n > 0 {
        lemma_ones_same(a, b, (n - 1) as nat);
        assert(has_bit(a, n - 1) == has_bit(b, n - 1));
    }
}

/// Setting a clear bit adds one to the count.
pub proof fn lemma_ones_set(a: u128, b: u128, j: int, n: nat)
    requires
        0 <= j < n <= 128,
        !has_bit(a, j),
        has_bit(b, j),
        forall|k: int| 0 <= k < n && k != j ==> #[trigger] has_bit(a, k) == has_bit(b, k),
    ensures
        ones_below(b, n) == ones_below(a, n) + 1,
    decreases n,
{
    if n == j + 1 {
        lemma_ones_same(a, b, (n - 1) as nat);
    } else {
        lemma_ones_set(a, b, j, (n - 1) as nat);
        assert(has_bit(a, n - 1) == has_bit(b, n - 1));
    }
}

/// The number whose bit `k` is set where `f(k)` holds, for the lowest `n` bits.
pub open spec fn bits_below(f: spec_fn(int) -> bool, n: nat) -> u128
    decreases n,
{
    if n == 0 {
        0
    } else if f(n - 1) {
        bits_below(f, (n - 1) as nat) | (1u128 << ((n - 1) as u128))
    } else {
        bits_below(f, (n - 1) as nat)
    }
}

/// The number whose bit `k` is set where `f(k)` holds.
pub open spec fn bits_where(f: spec_fn(int) -> bool) -> u128 {
    bits_below(f, 128)
}

proof fn lemma_bits_below(f: spec_fn(int) -> bool, n: nat, k: int)
    requires
        0 <= k < 128,
        n <= 128,
    ensures
        has_bit(bits_below(f, n), k) == (k < n && f(k)),
    decreases n,
{
    if n == 0 {
        lemma_ops(0, 0, k);
    } else {
        lemma_bits_below(f, (n - 1) as nat, k);
        lemma_ops(bits_below(f, (n - 1) as nat), 1u128 << ((n - 1) as u128), k);
        lemma_single(n - 1, k);
    }
}

/// What `bits_where` is, bit by bit.
pub proof fn lemma_bits_where(f: spec_fn(int) -> bool)
    ensures
        forall|k: int| 0 <= k < 128 ==> #[trigger] has_bit(bits_where(f), k) == f(k),
{
    assert forall|k: int| 0 <= k < 128 implies #[trigger] has_bit(bits_where(f), k) == f(k) by {
        lemma_bits_below(f, 128, k);
    }
}

/// A number with the bits of `f` is `bits_where(f)`.
pub proof fn lemma_is_bits_where(x: u128, f: spec_fn(int) -> bool)
    requires
        forall|k: int| 0 <= k < 128 ==> #[trigger] has_bit(x, k) == f(k),
    ensures
        x == bits_where(f),
{
    lemma_bits_where(f);
    lemma_same_bits(x, bits_where(f));
}

/// Two numbers have a set bit in common where their conjunction is not zero.
pub proof fn lemma_meets(x: u128, y: u128)
    ensures
        (x & y != 0) == exists|k: int| 0 <= k < 128 && #[trigger] has_bit(x, k) && has_bit(y, k),
{
    if x & y != 0 {
        let k = lemma_some_bit(x & y);
        lemma_ops(x, y, k);
        assert(has_bit(x, k) && has_bit(y, k));
    }
    if exists|k: int| 0 <= k < 128 && #[trigger] has_bit(x, k) && has_bit(y, k) {
        let k = choose|k: int| 0 <= k < 128 && #[trigger] has_bit(x, k) && has_bit(y, k);
        lemma_ops(x, y, k);
        lemma_ops(0, 0, k);
    }
}

/// Testing a bit with a shifted one.
pub proof fn lemma_bit_test(x: u128, j: int)
    requires
        0 <= j < 128,
    ensures
        (x & (1u128 << (j as u128)) != 0) == has_bit(x, j),
{
    let one = 1u128 << (j as u128);
    lemma_meets(x, one);
    assert forall|k: int| 0 <= k < 128 implies #[trigger] has_bit(one, k) == (j == k) by {
        lemma_single(j, k);
    }
    if has_bit(x, j) {
        assert(has_bit(one, j));
    }
}

/// The position of the set bit that has `i` set bits below it.
pub open spec fn nth_bit(x: u128, i: nat) -> int {
    choose|j: int| 0 <= j < 128 && has_bit(x, j) && #[trigger] ones_below(x, j as nat) == i
}

/// Only one set bit has a given number of set bits below it.
pub proof fn lemma_nth_bit(x: u128, i: nat, j: int)
    requires
        0 <= j < 128,
        has_bit(x, j),
        ones_below(x, j as nat) == i,
    ensures
        nth_bit(x, i) == j,
{
    let n = nth_bit(x, i);
    assert(0 <= n < 128 && has_bit(x, n) && ones_below(x, n as nat) == i);
    if n < j {
        lemma_ones_bound(x, (n + 1) as nat, j as nat);
    }
    if j < n {
        lemma_ones_bound(x, (j + 1) as nat, n as nat);
    }
}

/// Every count below the total is that of some set bit.
pub proof fn lemma_nth_bit_exists(x: u128, i: nat, n: nat)
    requires
        i < ones_below(x, n),
        n <= 128,
    ensures
        0 <= nth_bit(x, i) < n,
        has_bit(x, nth_bit(x, i)),
        ones_below(x, nth_bit(x, i) as nat) == i,
    decreases n,
{
    if n > 0 {
        if i < ones_below(x, (n - 1) as nat) {
            lemma_nth_bit_exists(x, i, (n - 1) as nat);
        } else {
            lemma_nth_bit(x, i, n - 1);
        }
    }
}

/// No more bits are set than there are; counts grow with the number of bits.
pub proof fn lemma_ones_bound(x: u128, m: nat, n: nat)
    requires
        m <= n,
    ensures
        ones_below(x, m) <= ones_below(x, n) <= ones_below(x, m) + (n - m),
        ones_below(x, n) <= n,
    decreases n,
{
    if n > m {
        lemma_ones_bound(x, m, (n - 1) as nat);
    } else if n > 0 {
        lemma_ones_bound(x, (n - 1) as nat, (n - 1) as nat);
    }
}

/// Without a bit set from `m` on, the count no longer changes.
pub proof fn lemma_ones_clear(x: u128, m: nat, n: nat)
    requires
        m <= n,
        forall|k: int| m <= k < n ==> !#[trigger] has_bit(x, k),
    ensures
        ones_below(x, n) == ones_below(x, m),
    decreases n,
{
    if n > m {
        lemma_ones_clear(x, m, (n - 1) as nat);
        assert(!has_bit(x, n - 1));
    }
}

} // verus!
