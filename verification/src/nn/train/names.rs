//! Names of files, and their order.

use vstd::prelude::*;
use vstd::seq_lib::{group_to_multiset_ensures, lemma_sorted_unique};
use vstd::string::*;
use crate::parse::has_prefix;
use crate::text::{
    decimal, decimal_text, digit, hexadecimal, hexadecimal_text, push_right, repeated,
    right_aligned, same_text,
};

verus! {

/// Whether `a` comes before `b`, by the first character in which they differ.
pub open spec fn before(a: Seq<char>, b: Seq<char>) -> bool
    decreases a.len(),
{
    if b.len() == 0 {
        false
    } else if a.len() == 0 {
        true
    } else if a[0] != b[0] {
        a[0] < b[0]
    } else {
        before(a.drop_first(), b.drop_first())
    }
}

/// Names as texts.
pub open spec fn texts(names: Seq<String>) -> Seq<Seq<char>> {
    Seq::new(names.len(), |i: int| names[i]@)
}

/// Whether no name comes before one that stands ahead of it.
pub open spec fn sorted(names: Seq<Seq<char>>) -> bool {
    forall|i: int, j: int|
        0 <= i < j < names.len() ==> !before(#[trigger] names[j], #[trigger] names[i])
}

/// A name does not come before itself, and of two different names one comes first.
pub proof fn order_is_total(a: Seq<char>, b: Seq<char>)
    ensures
        !(before(a, b) && before(b, a)),
        before(a, b) || before(b, a) || a == b,
    decreases a.len(),
{
    if a.len() > 0 && b.len() > 0 && a[0] == b[0] {
        order_is_total(a.drop_first(), b.drop_first());
        if a.drop_first() == b.drop_first() {
            assert(a =~= seq![a[0]] + a.drop_first());
            assert(b =~= seq![b[0]] + b.drop_first());
        }
    } else if a.len() == 0 && b.len() == 0 {
        assert(a =~= b);
    }
}

/// The order carries over.
pub proof fn order_is_transitive(a: Seq<char>, b: Seq<char>, c: Seq<char>)
    requires
        !before(b, a),
        !before(c, b),
    ensures
        !before(c, a),
    decreases a.len(),
{
    if a.len() > 0 && b.len() > 0 && c.len() > 0 {
        if a[0] == b[0] && b[0] == c[0] {
            order_is_transitive(a.drop_first(), b.drop_first(), c.drop_first());
        }
    }
}

/// Whether `a` comes before `b`.
fn comes_before(a: &str, b: &str) -> (first: bool)
    ensures
        first == before(a@, b@),
{
    let m: usize = a.unicode_len();
    let n: usize = b.unicode_len();
    let mut i: usize = 0;
    assert(a@.skip(0) =~= a@);
    assert(b@.skip(0) =~= b@);
    while i < m && i < n
        invariant
            i <= m,
            i <= n,
            m == a@.len(),
            n == b@.len(),
            before(a@, b@) == before(a@.skip(i as int), b@.skip(i as int)),
        decreases m - i,
    {
        let x = a.get_char(i);
        let y = b.get_char(i);
        assert(a@.skip(i as int)[0] == x);
        assert(b@.skip(i as int)[0] == y);
        if x != y {
            return x < y;
        }
        assert(a@.skip(i as int).drop_first() =~= a@.skip(i + 1));
        assert(b@.skip(i as int).drop_first() =~= b@.skip(i + 1));
        i = i + 1;
    }
    i < n
}

/// Put a name where it belongs.
fn insert_sorted(names: &mut Vec<String>, name: String)
    requires
        sorted(texts(old(names)@)),
    ensures
        sorted(texts(final(names)@)),
        texts(final(names)@).to_multiset() == texts(old(names)@).to_multiset().insert(name@),
{
    let ghost given = texts(names@);
    let mut at: usize = names.len();
    while at > 0 && comes_before(name.as_str(), names[at - 1].as_str())
        invariant
            at <= names@.len(),
            given == texts(names@),
            sorted(given),
            forall|j: int| at <= j < given.len() ==> before(name@, #[trigger] given[j]),
        decreases at,
    {
        at = at - 1;
    }
    let ghost text = name@;
    proof {
        assert forall|j: int| 0 <= j < at implies !before(text, #[trigger] given[j]) by {
            if j < at - 1 {
                assert(!before(given[at - 1], given[j]));
                order_is_transitive(given[j], given[at - 1], text);
            }
        }
    }
    names.insert(at, name);
    proof {
        let after = texts(names@);
        assert(after =~= given.insert(at as int, text));
        assert forall|i: int, j: int| 0 <= i < j < after.len() implies !before(
            #[trigger] after[j],
            #[trigger] after[i],
        ) by {
            if j < at {
                assert(!before(given[j], given[i]));
            } else if j == at {
                assert(!before(text, given[i]));
            } else if i < at {
                assert(!before(given[j - 1], given[i]));
            } else if i == at {
                assert(before(text, given[j - 1]));
                order_is_total(text, given[j - 1]);
            } else {
                assert(!before(given[j - 1], given[i - 1]));
            }
        }
        lemma_insert_multiset(given, at as int, text);
    }
}

proof fn lemma_insert_multiset(names: Seq<Seq<char>>, at: int, name: Seq<char>)
    requires
        0 <= at <= names.len(),
    ensures
        names.insert(at, name).to_multiset() == names.to_multiset().insert(name),
{
    broadcast use group_to_multiset_ensures;

    let after = names.insert(at, name);
    assert(after.remove(at) =~= names);
    assert(after.remove(at).to_multiset() == after.to_multiset().remove(after[at]));
    assert(after.contains(name)) by {
        assert(after[at] == name);
    }
    assert(after.to_multiset() =~= names.to_multiset().insert(name));
}

/// What the name of a file in a model's directory says of it.
#[derive(Copy, Clone, Debug, PartialEq, Eq, Structural)]
pub enum EntryKind {
    /// Not a file.
    NotAFile,
    /// A file that holds parameters.
    Checkpoint,
    /// A file that is known to be there.
    Known,
    /// A file that does not belong there.
    Strange,
}

/// What an entry of a model's directory is.
pub open spec fn entry_kind(name: Seq<char>, is_file: bool) -> EntryKind {
    if !is_file {
        EntryKind::NotAFile
    } else if "checkpoint-"@.is_prefix_of(name) {
        EntryKind::Checkpoint
    } else if name == "config.json"@ || name == "positions"@ || name == "train-log.txt"@ {
        EntryKind::Known
    } else {
        EntryKind::Strange
    }
}

/// What an entry of a model's directory is.
pub fn classify_entry(name: &str, is_file: bool) -> (kind: EntryKind)
    ensures
        kind == entry_kind(name@, is_file),
{
    if !is_file {
        EntryKind::NotAFile
    } else if has_prefix(name, "checkpoint-") {
        EntryKind::Checkpoint
    } else if same_text(name, "config.json") || same_text(name, "positions") || same_text(
        name,
        "train-log.txt",
    ) {
        EntryKind::Known
    } else {
        EntryKind::Strange
    }
}

/// The checkpoints among the entries of a directory, in their order there.
pub open spec fn checkpoints_among(entries: Seq<(String, bool)>) -> Seq<Seq<char>>
    decreases entries.len(),
{
    if entries.len() == 0 {
        Seq::empty()
    } else {
        let (name, is_file) = entries.last();
        if entry_kind(name@, is_file) == EntryKind::Checkpoint {
            checkpoints_among(entries.drop_last()).push(name@)
        } else {
            checkpoints_among(entries.drop_last())
        }
    }
}

/// The checkpoints among the entries of a directory, in the order of their names.
pub fn sorted_checkpoints(entries: &Vec<(String, bool)>) -> (names: Vec<String>)
    ensures
        sorted(texts(names@)),
        texts(names@).to_multiset() == checkpoints_among(entries@).to_multiset(),
{
    broadcast use group_to_multiset_ensures;

    let mut names: Vec<String> = Vec::new();
    let mut i: usize = 0;
    proof {
        assert(entries@.take(0).len() == 0);
        assert(texts(names@) =~= Seq::<Seq<char>>::empty());
    }
    while i < entries.len()
        invariant
            i <= entries@.len(),
            sorted(texts(names@)),
            texts(names@).to_multiset() == checkpoints_among(
                entries@.take(i as int),
            ).to_multiset(),
        decreases entries@.len() - i,
    {
        let entry = &entries[i];
        proof {
            broadcast use group_to_multiset_ensures;

            assert(entries@.take(i + 1).drop_last() =~= entries@.take(i as int));
            assert(entries@.take(i + 1).last() == entries@[i as int]);
        }
        if classify_entry(entry.0.as_str(), entry.1) == EntryKind::Checkpoint {
            insert_sorted(&mut names, entry.0.clone());
        }
        i = i + 1;
    }
    assert(entries@.take(i as int) =~= entries@);
    names
}

/// The name of a checkpoint: its number with five digits at least, then the first four bytes of
/// the hash of its content.
pub open spec fn checkpoint_text(number: nat, hash: u32) -> Seq<char> {
    "checkpoint-"@ + right_aligned(decimal(number), '0', 5) + "-"@ + right_aligned(
        hexadecimal(hash as nat),
        '0',
        8,
    )
}

/// The number that the first four bytes make, highest first.
pub open spec fn be_u32(bytes: Seq<u8>) -> int {
    bytes[0] * 0x100_0000 + bytes[1] * 0x1_0000 + bytes[2] * 0x100 + bytes[3]
}

/// The name of the checkpoint with this number whose content has this hash.
pub fn checkpoint_name(number: usize, digest: &Vec<u8>) -> (name: String)
    requires
        digest@.len() >= 4,
    ensures
        name@ == checkpoint_text(number as nat, be_u32(digest@) as u32),
{
    let hash: u32 = (digest[0] as u32) * 0x100_0000 + (digest[1] as u32) * 0x1_0000 + (
    digest[2] as u32) * 0x100 + (digest[3] as u32);
    let mut name = String::new();
    name.append("checkpoint-");
    let number = decimal_text(number as u64);
    push_right(&mut name, number.as_str(), '0', 5);
    name.append("-");
    let hash = hexadecimal_text(hash as u64);
    push_right(&mut name, hash.as_str(), '0', 8);
    name
}

/// Five decimal digits.
spec fn five_digits(n: nat) -> Seq<char> {
    seq![
        digit((n / 10000) as int),
        digit((n / 1000 % 10) as int),
        digit((n / 100 % 10) as int),
        digit((n / 10 % 10) as int),
        digit((n % 10) as int),
    ]
}

proof fn lemma_five_digits(n: nat)
    requires
        n < 100000,
    ensures
        right_aligned(decimal(n), '0', 5) == five_digits(n),
{
    reveal_with_fuel(decimal, 6);
    let text = decimal(n);
    let zeros = repeated('0', (5 - text.len()) as nat);
    assert(digit(0) == '0');
    assert(n / 10 / 10 == n / 100);
    assert(n / 100 / 10 == n / 1000);
    assert(n / 1000 / 10 == n / 10000);
    if n < 10 {
        assert(text.len() == 1);
    } else if n < 100 {
        assert(text.len() == 2);
    } else if n < 1000 {
        assert(text.len() == 3);
    } else if n < 10000 {
        assert(text.len() == 4);
    } else {
        assert(text.len() == 5);
    }
    assert(right_aligned(text, '0', 5) =~= five_digits(n));
}

proof fn lemma_before_prefix(head: Seq<char>, a: Seq<char>, b: Seq<char>)
    ensures
        before(head + a, head + b) == before(a, b),
    decreases head.len(),
{
    if head.len() == 0 {
        assert(head + a =~= a);
        assert(head + b =~= b);
    } else {
        lemma_before_prefix(head.drop_first(), a, b);
        assert((head + a).drop_first() =~= head.drop_first() + a);
        assert((head + b).drop_first() =~= head.drop_first() + b);
    }
}

proof fn lemma_digit_order(m: int, n: int)
    requires
        0 <= m < 10,
        0 <= n < 10,
    ensures
        digit(m) < digit(n) <==> m < n,
        digit(m) == digit(n) <==> m == n,
{
    assert(digit(m) as int == 48 + m);
    assert(digit(n) as int == 48 + n);
}

/// The digits of a number are the differences of its quotients.
proof fn lemma_digit_parts(n: nat)
    requires
        n < 100000,
    ensures
        n / 10000 < 10,
        n / 1000 % 10 == n / 1000 - 10 * (n / 10000),
        n / 100 % 10 == n / 100 - 10 * (n / 1000),
        n / 10 % 10 == n / 10 - 10 * (n / 100),
        n % 10 == n - 10 * (n / 10),
{
}

proof fn lemma_digits_before(m: nat, n: nat)
    requires
        m < n,
        n < 100000,
    ensures
        ({
            let i = first_difference(m, n);
            &&& 0 <= i < 5
            &&& forall|j: int| 0 <= j < i ==> #[trigger] five_digits(m)[j] == five_digits(n)[j]
            &&& five_digits(m)[i] < five_digits(n)[i]
        }),
{
    lemma_digit_parts(m);
    lemma_digit_parts(n);
    lemma_digit_order((m / 10000) as int, (n / 10000) as int);
    lemma_digit_order((m / 1000 % 10) as int, (n / 1000 % 10) as int);
    lemma_digit_order((m / 100 % 10) as int, (n / 100 % 10) as int);
    lemma_digit_order((m / 10 % 10) as int, (n / 10 % 10) as int);
    lemma_digit_order((m % 10) as int, (n % 10) as int);
}

/// Checkpoints with numbers of up to five digits come in the order of their numbers, whatever
/// their content.
pub proof fn checkpoints_come_in_order(m: nat, n: nat, hash_m: u32, hash_n: u32)
    requires
        m < n,
        n < 100000,
    ensures
        before(checkpoint_text(m, hash_m), checkpoint_text(n, hash_n)),
{
    lemma_five_digits(m);
    lemma_five_digits(n);
    lemma_digits_before(m, n);
    let (x, y) = (five_digits(m), five_digits(n));
    let a = x + ("-"@ + right_aligned(hexadecimal(hash_m as nat), '0', 8));
    let b = y + ("-"@ + right_aligned(hexadecimal(hash_n as nat), '0', 8));
    assert(checkpoint_text(m, hash_m) =~= "checkpoint-"@ + a);
    assert(checkpoint_text(n, hash_n) =~= "checkpoint-"@ + b);
    let i = first_difference(m, n);
    assert forall|j: int| 0 <= j < i implies #[trigger] a[j] == b[j] by {
        assert(x[j] == y[j]);
    }
    lemma_before_at(a, b, i);
    lemma_before_prefix("checkpoint-"@, a, b);
}

/// The first of the five digits in which the numbers differ.
spec fn first_difference(m: nat, n: nat) -> int {
    if m / 10000 != n / 10000 {
        0
    } else if m / 1000 != n / 1000 {
        1
    } else if m / 100 != n / 100 {
        2
    } else if m / 10 != n / 10 {
        3
    } else {
        4
    }
}

proof fn lemma_before_at(a: Seq<char>, b: Seq<char>, i: int)
    requires
        0 <= i < a.len(),
        i < b.len(),
        forall|j: int| 0 <= j < i ==> #[trigger] a[j] == b[j],
        a[i] < b[i],
    ensures
        before(a, b),
    decreases i,
{
    if i > 0 {
        assert(a[0] == b[0]);
        assert forall|j: int| 0 <= j < i - 1 implies #[trigger] a.drop_first()[j]
            == b.drop_first()[j] by {
            assert(a[j + 1] == b[j + 1]);
        }
        lemma_before_at(a.drop_first(), b.drop_first(), i - 1);
    }
}

/// Names can be put in order in one way only.
pub proof fn sorting_has_one_outcome(a: Seq<Seq<char>>, b: Seq<Seq<char>>)
    requires
        sorted(a),
        sorted(b),
        a.to_multiset() == b.to_multiset(),
    ensures
        a == b,
{
    let leq = |x: Seq<char>, y: Seq<char>| !before(y, x);
    assert forall|x: Seq<char>| #[trigger] leq(x, x) by {
        order_is_total(x, x);
    }
    assert forall|x: Seq<char>, y: Seq<char>| #[trigger] leq(x, y) && #[trigger] leq(
        y,
        x,
    ) implies x == y by {
        order_is_total(x, y);
    }
    assert forall|x: Seq<char>, y: Seq<char>| #[trigger] leq(x, y) || #[trigger] leq(y, x) by {
        order_is_total(x, y);
    }
    assert forall|x: Seq<char>, y: Seq<char>, z: Seq<char>| #[trigger] leq(x, y) && #[trigger] leq(
        y,
        z,
    ) implies leq(x, z) by {
        order_is_transitive(x, y, z);
    }
    lemma_sorted_unique(a, b, leq);
}

/// Checkpoints that are numbered as they were written, up to a hundred thousand of them, are found
/// again in the same order, whatever the order in which a directory lists them. So the latest one
/// stays the latest.
pub proof fn a_restart_keeps_the_checkpoints(
    written: Seq<Seq<char>>,
    hashes: Seq<u32>,
    found: Seq<Seq<char>>,
)
    requires
        written.len() <= 100000,
        hashes.len() == written.len(),
        forall|i: int|
            0 <= i < written.len() ==> #[trigger] written[i] == checkpoint_text(
                i as nat,
                hashes[i],
            ),
        sorted(found),
        found.to_multiset() == written.to_multiset(),
    ensures
        found == written,
{
    assert forall|i: int, j: int| 0 <= i < j < written.len() implies !before(
        #[trigger] written[j],
        #[trigger] written[i],
    ) by {
        checkpoints_come_in_order(i as nat, j as nat, hashes[i], hashes[j]);
        order_is_total(written[i], written[j]);
    }
    sorting_has_one_outcome(found, written);
}

} // verus!
