//! Positions of self play games, as values and as bytes.

use vstd::prelude::*;
use crate::bb::Bitboard;
use crate::nn::train::codec::{
    bytes_give_the_number_back, le_bytes, le_value, lemma_ranges, number_gives_the_bytes_back,
    push_le, read_le,
};
use crate::nn::transform::Transform;
use crate::util::F32;

verus! {

/// A board with the moves that a search preferred and the result of the game for sente.
#[derive(Clone, Debug)]
pub struct Position {
    pub board: Bitboard,
    pub value: F32,
    pub policy: Vec<F32>,
}

/// How many bytes a position takes.
pub const SERIALIZED_LEN: usize = 520;

/// The bytes of the first `n` numbers of a policy.
pub open spec fn policy_bytes(policy: Seq<F32>, n: nat) -> Seq<u8>
    decreases n,
{
    if n == 0 {
        Seq::empty()
    } else {
        policy_bytes(policy, (n - 1) as nat) + le_bytes(policy[n - 1].0 as nat, 4)
    }
}

/// The bytes of a position: the two halves of the board, the value, the policy.
pub open spec fn position_bytes(board: Bitboard, value: F32, policy: Seq<F32>) -> Seq<u8> {
    le_bytes(board.black as nat, 16) + le_bytes(board.white as nat, 16) + le_bytes(
        value.0 as nat,
        4,
    ) + policy_bytes(policy, policy.len())
}

/// The number that four bytes make.
pub open spec fn f32_at(bytes: Seq<u8>, start: int) -> F32 {
    F32(le_value(bytes.subrange(start, start + 4)) as u32)
}

/// The board that 32 bytes make.
pub open spec fn board_at(bytes: Seq<u8>) -> Bitboard {
    Bitboard {
        black: le_value(bytes.subrange(0, 16)) as u128,
        white: le_value(bytes.subrange(16, 32)) as u128,
    }
}

/// The policy that comes behind the board and the value.
pub open spec fn policy_at(bytes: Seq<u8>) -> Seq<F32> {
    Seq::new(121, |i: int| f32_at(bytes, 36 + 4 * i))
}

/// The number that the four bytes from `start` on make.
fn read_f32(bytes: &[u8], start: usize) -> (x: F32)
    requires
        start + 4 <= bytes@.len(),
    ensures
        x == f32_at(bytes@, start as int),
{
    let x: u128 = read_le(bytes, start, 4);
    proof {
        number_gives_the_bytes_back(bytes@.subrange(start as int, start + 4));
        lemma_ranges();
    }
    F32(x as u32)
}

impl Position {
    /// Look at the position in another way.
    pub fn apply_transform<T: Transform>(&mut self, tf: &T)
        requires
            old(self).policy@.len() >= 121,
        ensures
            final(self).board == tf.board_of(old(self).board),
            final(self).value == tf.value_of(old(self).value),
            final(self).policy@ == tf.policy_of(old(self).policy@),
    {
        self.board = tf.apply_board(self.board);
        self.value = tf.apply_value(self.value);
        let policy = self.policy.clone();
        assert(policy@ =~= self.policy@);
        self.policy = tf.apply_policy(policy);
    }

    /// The position that the bytes hold.
    pub fn deserialize_from(bytes: &[u8]) -> (pos: Position)
        requires
            bytes@.len() == 520,
        ensures
            pos.board == board_at(bytes@),
            pos.value == f32_at(bytes@, 32),
            pos.policy@ == policy_at(bytes@),
    {
        let black: u128 = read_le(bytes, 0, 16);
        let white: u128 = read_le(bytes, 16, 16);
        let value = read_f32(bytes, 32);
        let mut policy: Vec<F32> = Vec::new();
        let mut i: usize = 0;
        while i < 121
            invariant
                i <= 121,
                bytes@.len() == 520,
                policy@.len() == i,
                forall|j: int| 0 <= j < i ==> #[trigger] policy@[j] == f32_at(bytes@, 36 + 4 * j),
            decreases 121 - i,
        {
            policy.push(read_f32(bytes, 36 + i * 4));
            i = i + 1;
        }
        Position { board: Bitboard { black, white }, value, policy }
    }

    /// Append the bytes of the position.
    pub fn serialize_into(&self, out: &mut Vec<u8>)
        requires
            self.policy@.len() == 121,
        ensures
            final(out)@ == old(out)@ + position_bytes(self.board, self.value, self.policy@),
    {
        push_le(out, self.board.black, 16);
        push_le(out, self.board.white, 16);
        push_le(out, self.value.0 as u128, 4);
        let ghost head = out@;
        let mut i: usize = 0;
        while i < self.policy.len()
            invariant
                i <= self.policy@.len(),
                out@ == head + policy_bytes(self.policy@, i as nat),
            decreases self.policy@.len() - i,
        {
            push_le(out, self.policy[i].0 as u128, 4);
            assert(out@ =~= head + policy_bytes(self.policy@, (i + 1) as nat));
            i = i + 1;
        }
        assert(out@ =~= old(out)@ + position_bytes(self.board, self.value, self.policy@));
    }
}

proof fn lemma_policy_bytes(policy: Seq<F32>, n: nat, i: int)
    requires
        n <= policy.len(),
    ensures
        policy_bytes(policy, n).len() == 4 * n,
        0 <= i < n ==> policy_bytes(policy, n).subrange(4 * i, 4 * i + 4) == le_bytes(
            policy[i].0 as nat,
            4,
        ),
    decreases n,
{
    if n > 0 {
        let less = policy_bytes(policy, (n - 1) as nat);
        let all = policy_bytes(policy, n);
        let last = le_bytes(policy[n - 1].0 as nat, 4);
        lemma_policy_bytes(policy, (n - 1) as nat, i);
        bytes_give_the_number_back(policy[n - 1].0 as nat, 4);
        if 0 <= i < n - 1 {
            assert(all.subrange(4 * i, 4 * i + 4) =~= less.subrange(4 * i, 4 * i + 4));
        } else if i == n - 1 {
            assert(all.subrange(4 * i, 4 * i + 4) =~= last);
        }
    }
}

/// What has been serialized is deserialized to what it was.
pub proof fn a_position_comes_back(board: Bitboard, value: F32, policy: Seq<F32>)
    requires
        policy.len() == 121,
    ensures
        position_bytes(board, value, policy).len() == 520,
        board_at(position_bytes(board, value, policy)) == board,
        f32_at(position_bytes(board, value, policy), 32) == value,
        policy_at(position_bytes(board, value, policy)) == policy,
{
    let bytes = position_bytes(board, value, policy);
    let tail = policy_bytes(policy, 121);
    lemma_ranges();
    bytes_give_the_number_back(board.black as nat, 16);
    bytes_give_the_number_back(board.white as nat, 16);
    bytes_give_the_number_back(value.0 as nat, 4);
    lemma_policy_bytes(policy, 121, 0);
    assert(bytes.subrange(0, 16) =~= le_bytes(board.black as nat, 16));
    assert(bytes.subrange(16, 32) =~= le_bytes(board.white as nat, 16));
    assert(bytes.subrange(32, 36) =~= le_bytes(value.0 as nat, 4));
    assert forall|i: int| 0 <= i < 121 implies #[trigger] policy_at(bytes)[i] == policy[i] by {
        lemma_policy_bytes(policy, 121, i);
        bytes_give_the_number_back(policy[i].0 as nat, 4);
        assert(bytes.subrange(36 + 4 * i, 36 + 4 * i + 4) =~= tail.subrange(4 * i, 4 * i + 4));
    }
    assert(policy_at(bytes) =~= policy);
}

/// What has been deserialized is serialized to the same bytes.
pub proof fn the_bytes_come_back(bytes: Seq<u8>)
    requires
        bytes.len() == 520,
    ensures
        position_bytes(board_at(bytes), f32_at(bytes, 32), policy_at(bytes)) == bytes,
{
    lemma_ranges();
    let policy = policy_at(bytes);
    number_gives_the_bytes_back(bytes.subrange(0, 16));
    number_gives_the_bytes_back(bytes.subrange(16, 32));
    number_gives_the_bytes_back(bytes.subrange(32, 36));
    lemma_policy_back(bytes, 121);
    assert(bytes =~= bytes.subrange(0, 16) + bytes.subrange(16, 32) + bytes.subrange(32, 36)
        + bytes.subrange(36, 520));
}

proof fn lemma_policy_back(bytes: Seq<u8>, n: nat)
    requires
        bytes.len() == 520,
        n <= 121,
    ensures
        policy_bytes(policy_at(bytes), n) == bytes.subrange(36, (36 + 4 * n) as int),
    decreases n,
{
    if n > 0 {
        lemma_policy_back(bytes, (n - 1) as nat);
        let start = 36 + 4 * (n - 1);
        lemma_ranges();
        number_gives_the_bytes_back(bytes.subrange(start, start + 4));
        assert(bytes.subrange(36, (36 + 4 * n) as int) =~= bytes.subrange(36, start) + bytes.subrange(
            start,
            start + 4,
        ));
    }
}

/// Why positions were refused.
#[derive(Copy, Clone, Debug, PartialEq, Eq, Structural)]
pub enum PositionsError {
    /// The file does not hold whole positions.
    FileSize,
    /// The data does not hold whole positions.
    DataSize,
}

/// A file of positions, one after the other.
#[derive(Debug)]
pub struct Positions {
    pub count: usize,
}

/// Which positions are read when those from `start` to `end` are asked for.
pub open spec fn read_range(count: int, start: int, end: Option<usize>) -> (int, int) {
    let to = match end {
        Some(n) if n < count => n as int,
        _ => count,
    };
    (if start < to {
        start
    } else {
        to
    }, to)
}

impl Positions {
    /// Whether the size of the file fits in memory.
    pub open spec fn wf(self) -> bool {
        self.count * 520 <= usize::MAX
    }

    /// The positions in a file of `len` bytes.
    pub fn open(len: usize) -> (positions: Result<Positions, PositionsError>)
        ensures
            positions is Ok <==> len % 520 == 0,
            positions matches Ok(positions) ==> positions.wf() && positions.count * 520 == len,
            positions matches Err(e) ==> e == PositionsError::FileSize,
    {
        if len % SERIALIZED_LEN != 0 {
            return Err(PositionsError::FileSize);
        }
        Ok(Positions { count: len / SERIALIZED_LEN })
    }

    /// How many positions the file holds.
    pub fn len(&self) -> (count: usize)
        ensures
            count == self.count,
    {
        self.count
    }

    /// Count the positions that are about to be appended.
    pub fn push_serialized_many(&mut self, data: &[u8]) -> (pushed: Result<(), PositionsError>)
        requires
            old(self).wf(),
            old(self).count * 520 + data@.len() <= usize::MAX,
        ensures
            final(self).wf(),
            pushed is Ok <==> data@.len() % 520 == 0,
            pushed is Ok ==> final(self).count == old(self).count + data@.len() / 520,
            pushed matches Err(e) ==> e == PositionsError::DataSize && *final(self) == *old(self),
    {
        let len: usize = data.len();
        if len % SERIALIZED_LEN != 0 {
            return Err(PositionsError::DataSize);
        }
        self.count = self.count + len / SERIALIZED_LEN;
        Ok(())
    }

    /// Which bytes of the file hold the positions from `start` to `end`, and where the positions
    /// read end.
    pub fn read_serialized_range(&self, start: usize, end: Option<usize>) -> (range: (
        usize,
        usize,
        usize,
    ))
        requires
            self.wf(),
        ensures
            ({
                let (from, to) = read_range(self.count as int, start as int, end);
                &&& range.0 == from * 520
                &&& range.1 == to * 520
                &&& range.2 == to
                &&& range.0 <= range.1 <= self.count * 520
            }),
    {
        let idx1: usize = match end {
            Some(n) => if n < self.count {
                n
            } else {
                self.count
            },
            None => self.count,
        };
        let idx0: usize = if start < idx1 {
            start
        } else {
            idx1
        };
        (idx0 * SERIALIZED_LEN, idx1 * SERIALIZED_LEN, idx1)
    }
}

/// Reading on from where the file ended gives back exactly what was appended since.
pub proof fn a_read_gives_back_what_was_appended(file: Seq<u8>, data: Seq<u8>)
    requires
        file.len() % 520 == 0,
        data.len() % 520 == 0,
    ensures
        ({
            let count = file.len() / 520;
            let after = count + data.len() / 520;
            let (from, to) = read_range(after as int, count as int, None);
            &&& (file + data).len() == after * 520
            &&& (file + data).subrange(from * 520, to * 520) == data
            &&& to == after
        }),
{
    let count = file.len() / 520;
    let after = count + data.len() / 520;
    assert((file + data).subrange((count * 520) as int, (after * 520) as int) =~= data);
}

/// Reading on from where the last read ended, as the file grows, misses nothing and reads nothing
/// twice.
pub proof fn reading_on_misses_nothing(file: Seq<u8>, more: Seq<u8>, start: nat)
    requires
        file.len() % 520 == 0,
        more.len() % 520 == 0,
        start * 520 <= file.len(),
    ensures
        ({
            let before = (file.len() / 520) as int;
            let after = ((file + more).len() / 520) as int;
            let (a0, a1) = read_range(before, start as int, None);
            let (b0, b1) = read_range(after, a1, None);
            let (c0, c1) = read_range(after, start as int, None);
            &&& b0 == a1
            &&& b1 == c1
            &&& file.subrange(a0 * 520, a1 * 520) + (file + more).subrange(b0 * 520, b1 * 520) == (
            file + more).subrange(c0 * 520, c1 * 520)
        }),
{
    let before = (file.len() / 520) as int;
    let after = ((file + more).len() / 520) as int;
    assert(file.subrange(start as int * 520, before * 520) + (file + more).subrange(
        before * 520,
        after * 520,
    ) =~= (file + more).subrange(start as int * 520, after * 520));
}

} // verus!
