//! Ordering of floating point numbers by their bits, running totals, and compact numbers.

use vstd::prelude::*;
use vstd::string::*;
use crate::text::{decimal, push_decimal};

verus! {

const KILO: usize = 1000;

const MEGA: usize = 1000 * KILO;

const GIGA: usize = 1000 * MEGA;

const KIBI: usize = 1024;

const MIBI: usize = 1024 * KIBI;

const GIBI: usize = 1024 * MIBI;

/// How a number is written: whole, or as a quotient with one decimal.
#[derive(Copy, Clone, Debug, PartialEq, Eq, Structural)]
pub enum Scale {
    Whole,
    Over(usize),
}

/// A count, written with the unit that fits it: `999`, `1.5k`, `2.0M`.
pub struct NumPretty(pub usize);

impl NumPretty {
    /// What the count is divided by.
    pub open spec fn scale_spec(self) -> Scale {
        if self.0 < 1_000 {
            Scale::Whole
        } else if self.0 < 1_000_000 {
            Scale::Over(1_000)
        } else if self.0 < 1_000_000_000 {
            Scale::Over(1_000_000)
        } else {
            Scale::Over(1_000_000_000)
        }
    }

    /// The unit behind the number.
    pub open spec fn unit_spec(self) -> Seq<char> {
        if self.0 < 1_000 {
            ""@
        } else if self.0 < 1_000_000 {
            "k"@
        } else if self.0 < 1_000_000_000 {
            "M"@
        } else {
            "G"@
        }
    }

    /// What the count is divided by.
    pub fn scale(&self) -> (scale: Scale)
        ensures
            scale == self.scale_spec(),
    {
        let n: usize = self.0;
        if n < KILO {
            Scale::Whole
        } else if n < MEGA {
            Scale::Over(KILO)
        } else if n < GIGA {
            Scale::Over(MEGA)
        } else {
            Scale::Over(GIGA)
        }
    }

    /// The unit behind the number.
    pub fn unit(&self) -> (unit: &'static str)
        ensures
            unit@ == self.unit_spec(),
    {
        let n: usize = self.0;
        if n < KILO {
            ""
        } else if n < MEGA {
            "k"
        } else if n < GIGA {
            "M"
        } else {
            "G"
        }
    }

    /// The text of the count, where `quotient` is that of the count divided by its scale, with one
    /// decimal.
    pub fn text(&self, quotient: &str) -> (text: String)
        ensures
            text@ == (match self.scale_spec() {
                Scale::Whole => decimal(self.0 as nat),
                Scale::Over(_) => quotient@,
            }) + self.unit_spec(),
    {
        let mut out = String::new();
        match self.scale() {
            Scale::Whole => push_decimal(&mut out, self.0 as u64),
            Scale::Over(_) => out.append(quotient),
        }
        out.append(self.unit());
        out
    }
}

/// A number of bytes, written with the unit that fits it: `999B`, `1.5KiB`, `2.0MiB`.
pub struct SizePretty(pub usize);

impl SizePretty {
    /// What the number of bytes is divided by.
    pub open spec fn scale_spec(self) -> Scale {
        if self.0 < 0x400 {
            Scale::Whole
        } else if self.0 < 0x100000 {
            Scale::Over(0x400)
        } else if self.0 < 0x40000000 {
            Scale::Over(0x100000)
        } else {
            Scale::Over(0x40000000)
        }
    }

    /// The unit behind the number.
    pub open spec fn unit_spec(self) -> Seq<char> {
        if self.0 < 0x400 {
            "B"@
        } else if self.0 < 0x100000 {
            "KiB"@
        } else if self.0 < 0x40000000 {
            "MiB"@
        } else {
            "GiB"@
        }
    }

    /// What the number of bytes is divided by.
    pub fn scale(&self) -> (scale: Scale)
        ensures
            scale == self.scale_spec(),
    {
        let n: usize = self.0;
        if n < KIBI {
            Scale::Whole
        } else if n < MIBI {
            Scale::Over(KIBI)
        } else if n < GIBI {
            Scale::Over(MIBI)
        } else {
            Scale::Over(GIBI)
        }
    }

    /// The unit behind the number.
    pub fn unit(&self) -> (unit: &'static str)
        ensures
            unit@ == self.unit_spec(),
    {
        let n: usize = self.0;
        if n < KIBI {
            "B"
        } else if n < MIBI {
            "KiB"
        } else if n < GIBI {
            "MiB"
        } else {
            "GiB"
        }
    }

    /// The text of the number of bytes, where `quotient` is that of the number divided by its
    /// scale, with one decimal.
    pub fn text(&self, quotient: &str) -> (text: String)
        ensures
            text@ == (match self.scale_spec() {
                Scale::Whole => decimal(self.0 as nat),
                Scale::Over(_) => quotient@,
            }) + self.unit_spec(),
    {
        let mut out = String::new();
        match self.scale() {
            Scale::Whole => push_decimal(&mut out, self.0 as u64),
            Scale::Over(_) => out.append(quotient),
        }
        out.append(self.unit());
        out
    }
}

/// A finite double precision number, by its bits.
#[derive(Copy, Clone, Debug)]
pub struct Finite {
    bits: u64,
}

/// Whether the bits are those of a double precision number that is neither infinite nor NaN.
pub open spec fn is_finite(bits: u64) -> bool {
    bits % 0x8000_0000_0000_0000 < 0x7ff0_0000_0000_0000
}

/// Where the number with these bits stands in the order of the numbers.
pub open spec fn rank_of(bits: u64) -> int {
    if bits < 0x8000_0000_0000_0000 {
        bits as int
    } else {
        0x8000_0000_0000_0000 - bits
    }
}

impl Finite {
    #[verifier::type_invariant]
    spec fn inv(self) -> bool {
        is_finite(self.bits)
    }

    /// The bits of the number.
    pub closed spec fn view(self) -> u64 {
        self.bits
    }

    /// Where the number stands in the order of the numbers.
    pub open spec fn rank(self) -> int {
        rank_of(self@)
    }

    /// The number with the given bits.
    pub fn from_bits(bits: u64) -> (x: Finite)
        requires
            is_finite(bits),
        ensures
            x@ == bits,
    {
        Finite { bits }
    }

    /// The bits of the number.
    pub fn into_inner(self) -> (bits: u64)
        ensures
            bits == self@,
            is_finite(bits),
    {
        proof {
            use_type_invariant(&self);
        }
        self.bits
    }

    /// A number that orders as this one does.
    pub fn order(self) -> (key: i64)
        ensures
            key == self.rank(),
    {
        if self.bits < 0x8000_0000_0000_0000 {
            self.bits as i64
        } else {
            -((self.bits - 0x8000_0000_0000_0000) as i64)
        }
    }
}

/// A single precision number, by its bits.
#[derive(Copy, Clone, Debug, PartialEq, Eq, Structural)]
pub struct F32(pub u32);

impl F32 {
    /// Whether this is not a number.
    pub open spec fn nan(self) -> bool {
        self.0 % 0x8000_0000 > 0x7f80_0000
    }

    /// Where the number stands in the order of the numbers.
    pub open spec fn rank(self) -> int {
        if self.0 < 0x8000_0000 {
            self.0 as int
        } else {
            0x8000_0000 - self.0
        }
    }

    /// The same number with the other sign.
    pub open spec fn negated(self) -> F32 {
        if self.0 < 0x8000_0000 {
            F32((self.0 + 0x8000_0000) as u32)
        } else {
            F32((self.0 - 0x8000_0000) as u32)
        }
    }

    /// The same number with the other sign.
    pub fn neg(self) -> (x: F32)
        ensures
            x == self.negated(),
    {
        if self.0 < 0x8000_0000 {
            F32(self.0 + 0x8000_0000)
        } else {
            F32(self.0 - 0x8000_0000)
        }
    }

    /// A number that orders as this one does.
    pub fn order(self) -> (key: i64)
        ensures
            key == self.rank(),
    {
        if self.0 < 0x8000_0000 {
            self.0 as i64
        } else {
            -((self.0 - 0x8000_0000) as i64)
        }
    }

    /// Whether the number is greater; nothing is greater than NaN, nor NaN than anything.
    pub fn greater(self, other: F32) -> (greater: bool)
        ensures
            greater == (!self.nan() && !other.nan() && self.rank() > other.rank()),
    {
        self.0 % 0x8000_0000 <= 0x7f80_0000 && other.0 % 0x8000_0000 <= 0x7f80_0000 && self.order()
            > other.order()
    }
}

/// Negating twice gives the number back, and reverses the order once.
pub proof fn negation_reverses_the_order(x: F32, y: F32)
    ensures
        x.negated().negated() == x,
        x.negated().rank() == -x.rank(),
        x.rank() < y.rank() <==> y.negated().rank() < x.negated().rank(),
        x.nan() == x.negated().nan(),
{
}

/// Whether `i` is the last place of the greatest key.
pub open spec fn is_last_max(keys: Seq<int>, i: int) -> bool {
    &&& 0 <= i < keys.len()
    &&& forall|j: int| 0 <= j < i ==> #[trigger] keys[j] <= keys[i]
    &&& forall|j: int| i < j < keys.len() ==> #[trigger] keys[j] < keys[i]
}

/// The keys as numbers.
pub open spec fn as_ints(keys: Seq<i64>) -> Seq<int> {
    Seq::new(keys.len(), |i: int| keys[i] as int)
}

/// The place of the greatest key, the last one if there are several.
pub fn argmax(keys: &Vec<i64>) -> (place: Option<usize>)
    ensures
        place is None <==> keys@.len() == 0,
        place matches Some(i) ==> is_last_max(as_ints(keys@), i as int),
{
    if keys.len() == 0 {
        return None;
    }
    let mut best: usize = 0;
    let mut i: usize = 1;
    let ghost ints = as_ints(keys@);
    while i < keys.len()
        invariant
            ints == as_ints(keys@),
            best < i <= keys.len(),
            forall|j: int| 0 <= j < best ==> #[trigger] ints[j] <= ints[best as int],
            forall|j: int| best < j < i ==> #[trigger] ints[j] < ints[best as int],
        decreases keys.len() - i,
    {
        if keys[i] >= keys[best] {
            assert(ints[i as int] >= ints[best as int]);
            best = i;
        } else {
            assert(ints[i as int] < ints[best as int]);
        }
        i = i + 1;
    }
    Some(best)
}

/// The last place of the greatest key is the only such place.
pub proof fn last_max_is_unique(keys: Seq<int>, i: int, j: int)
    requires
        is_last_max(keys, i),
        is_last_max(keys, j),
    ensures
        i == j,
{
    if i < j {
        assert(keys[j] < keys[i]);
        assert(keys[i] <= keys[j]);
    }
    if j < i {
        assert(keys[i] < keys[j]);
        assert(keys[j] <= keys[i]);
    }
}

/// Running totals of a list.
pub struct CumSum<T> {
    pub inner: Vec<T>,
    pub taken: usize,
    pub total: Option<T>,
}

impl<T: Copy> CumSum<T> {
    /// The running totals of `inner`.
    pub fn new(inner: Vec<T>) -> (sums: CumSum<T>)
        ensures
            sums.inner@ == inner@,
            sums.taken == 0,
            sums.total is None,
    {
        CumSum { inner, taken: 0, total: None }
    }

    /// The next total: the first item, or the last total plus the next item.
    pub fn next<F: Fn(T, T) -> T>(&mut self, plus: &F) -> (total: Option<T>)
        requires
            forall|a: T, b: T| call_requires(plus, (a, b)),
        ensures
            final(self).inner@ == old(self).inner@,
            old(self).taken < old(self).inner@.len() ==> {
                let item = old(self).inner@[old(self).taken as int];
                &&& final(self).taken == old(self).taken + 1
                &&& total == final(self).total
                &&& total matches Some(sum) && match old(self).total {
                    Some(before) => call_ensures(plus, (before, item), sum),
                    None => sum == item,
                }
            },
            old(self).taken >= old(self).inner@.len() ==> total is None && *final(self) == *old(
                self,
            ),
    {
        if self.taken >= self.inner.len() {
            return None;
        }
        let item = self.inner[self.taken];
        self.taken = self.taken + 1;
        self.total = match self.total {
            Some(total) => Some(plus(total, item)),
            None => Some(item),
        };
        self.total
    }
}

/// Whether `sums` holds the running totals of `items`.
pub open spec fn running_totals<T, F: Fn(T, T) -> T>(
    items: Seq<T>,
    sums: Seq<T>,
    plus: F,
) -> bool {
    &&& sums.len() == items.len()
    &&& items.len() > 0 ==> sums[0] == items[0]
    &&& forall|i: int|
        1 <= i < items.len() ==> call_ensures(plus, (sums[i - 1], items[i]), #[trigger] sums[i])
}

/// All running totals of a list.
pub fn cumsum<T: Copy, F: Fn(T, T) -> T>(items: Vec<T>, plus: &F) -> (sums: Vec<T>)
    requires
        forall|a: T, b: T| call_requires(plus, (a, b)),
    ensures
        running_totals(items@, sums@, *plus),
{
    let mut totals = CumSum::new(items);
    let mut sums: Vec<T> = Vec::new();
    let n: usize = totals.inner.len();
    while sums.len() < n
        invariant
            forall|a: T, b: T| call_requires(plus, (a, b)),
            totals.inner@ == items@,
            n == items@.len(),
            totals.taken == sums@.len(),
            sums@.len() <= n,
            sums@.len() == 0 ==> totals.total is None,
            sums@.len() > 0 ==> totals.total == Some(sums@.last()) && sums@[0] == items@[0],
            forall|i: int|
                1 <= i < sums@.len() ==> call_ensures(
                    *plus,
                    (sums@[i - 1], items@[i]),
                    #[trigger] sums@[i],
                ),
        decreases n - sums@.len(),
    {
        if let Some(total) = totals.next(plus) {
            sums.push(total);
        }
    }
    sums
}

/// The first place whose number is greater than `threshold`.
pub open spec fn first_greater(xs: Seq<F32>, threshold: F32, i: int) -> bool {
    &&& 0 <= i < xs.len()
    &&& !threshold.nan() && !xs[i].nan() && xs[i].rank() > threshold.rank()
    &&& forall|j: int|
        0 <= j < i ==> !(!threshold.nan() && !(#[trigger] xs[j]).nan() && xs[j].rank()
            > threshold.rank())
}

/// The place in the running totals that a threshold falls on.
pub fn place_of(sums: &Vec<F32>, threshold: F32) -> (place: Option<usize>)
    ensures
        place matches Some(i) ==> first_greater(sums@, threshold, i as int),
        place is None ==> forall|i: int| !first_greater(sums@, threshold, i),
{
    let mut i: usize = 0;
    while i < sums.len()
        invariant
            i <= sums.len(),
            forall|j: int|
                0 <= j < i ==> !(!threshold.nan() && !(#[trigger] sums@[j]).nan() && sums@[j].rank()
                    > threshold.rank()),
        decreases sums.len() - i,
    {
        if sums[i].greater(threshold) {
            return Some(i);
        }
        i = i + 1;
    }
    None
}

/// What came of drawing one of several weights.
#[derive(Copy, Clone, Debug, PartialEq, Eq, Structural)]
pub enum Draw {
    /// There was nothing to draw from.
    Nothing,
    /// The weight at this place was drawn.
    At(usize),
    /// No running total is greater than the threshold.
    Failed,
}

impl Draw {
    /// Whether this is the first place of `sums` that is greater than `threshold`, or there is none.
    pub open spec fn falls_on(self, sums: Seq<F32>, threshold: F32) -> bool {
        match self {
            Draw::At(i) => first_greater(sums, threshold, i as int),
            _ => forall|i: int| !first_greater(sums, threshold, i),
        }
    }
}

/// Draw one of several weights. `draw` picks a threshold below their total; the first weight whose
/// running total is greater is drawn.
pub fn sample_weighted<P: Fn(F32, F32) -> F32, D: Fn(F32) -> F32>(
    weights: Vec<F32>,
    plus: &P,
    draw: &D,
) -> (drawn: Draw)
    requires
        forall|a: F32, b: F32| call_requires(*plus, (a, b)),
        forall|total: F32| call_requires(*draw, (total,)),
    ensures
        drawn is Nothing <==> weights@.len() == 0,
        weights@.len() > 0 ==> exists|sums: Seq<F32>, threshold: F32|
            {
                &&& #[trigger] running_totals(weights@, sums, *plus)
                &&& #[trigger] call_ensures(*draw, (sums.last(),), threshold)
                &&& drawn.falls_on(sums, threshold)
            },
{
    if weights.len() == 0 {
        return Draw::Nothing;
    }
    let sums = cumsum(weights, plus);
    let threshold = draw(sums[sums.len() - 1]);
    assert(call_ensures(*draw, (sums@.last(),), threshold));
    match place_of(&sums, threshold) {
        Some(i) => Draw::At(i),
        None => Draw::Failed,
    }
}

} // verus!
