//! The most recent positions.

use vstd::prelude::*;
use crate::bb::{can_be_picked, pick_below, Bitboard};
use crate::nn::train::positions::{
    board_at, f32_at, policy_at, Position, SERIALIZED_LEN,
};
use crate::util::F32;

verus! {

/// A position as a value.
pub ghost struct PositionView {
    pub board: Bitboard,
    pub value: F32,
    pub policy: Seq<F32>,
}

impl View for Position {
    type V = PositionView;

    open spec fn view(&self) -> PositionView {
        PositionView { board: self.board, value: self.value, policy: self.policy@ }
    }
}

/// The position that the bytes hold.
pub open spec fn position_at(bytes: Seq<u8>) -> PositionView {
    PositionView { board: board_at(bytes), value: f32_at(bytes, 32), policy: policy_at(bytes) }
}

/// The positions that the bytes hold, one after the other.
pub open spec fn positions_in(data: Seq<u8>) -> Seq<PositionView> {
    Seq::new(data.len() / 520, |i: int| position_at(data.subrange(520 * i, 520 * i + 520)))
}

/// The last `capacity` items.
pub open spec fn most_recent<T>(items: Seq<T>, capacity: nat) -> Seq<T> {
    if items.len() <= capacity {
        items
    } else {
        items.skip(items.len() - capacity)
    }
}

/// A buffer that holds the most recent positions. Once it is full, each new position takes the
/// place of the oldest.
pub struct PositionsBuffer {
    pub capacity: usize,
    pub items: Vec<Position>,
    pub next: usize,
    pub cursor: Option<usize>,
}

impl PositionsBuffer {
    /// Whether the buffer holds no more than it may, and knows which item is the oldest.
    pub open spec fn wf(self) -> bool {
        &&& self.items@.len() <= self.capacity
        &&& self.items@.len() < self.capacity ==> self.next == 0
        &&& self.capacity > 0 ==> self.next < self.capacity
    }

    /// The item that is `i`-th when the oldest comes first.
    pub open spec fn oldest(self, i: int) -> PositionView {
        self.items@[if self.next + i < self.items@.len() {
            self.next + i
        } else {
            self.next + i - self.items@.len()
        }]@
    }

    /// The positions, the oldest first.
    pub open spec fn in_order(self) -> Seq<PositionView> {
        Seq::new(self.items@.len(), |i: int| self.oldest(i))
    }

    /// From where on positions are to be asked for.
    pub open spec fn start(self) -> int {
        match self.cursor {
            Some(n) => (n as isize) as int,
            None => -(self.capacity as isize),
        }
    }

    /// Whether it can be said from where on positions are to be asked for.
    pub open spec fn askable(self) -> bool {
        self.cursor is None ==> self.capacity as isize != isize::MIN
    }

    /// Whether `after` is this buffer once it has taken in the positions of an answer, which ended
    /// at `cursor`.
    pub open spec fn absorbed(
        self,
        after: PositionsBuffer,
        cursor: Option<usize>,
        data: Seq<u8>,
    ) -> bool {
        &&& after.wf()
        &&& after.capacity == self.capacity
        &&& after.cursor == cursor
        &&& after.in_order() == most_recent(
            self.in_order() + positions_in(data),
            self.capacity as nat,
        )
    }

    /// An empty buffer.
    pub fn new(capacity: usize) -> (buffer: Self)
        ensures
            buffer.wf(),
            buffer.capacity == capacity,
            buffer.in_order().len() == 0,
            buffer.cursor is None,
    {
        Self { capacity, items: Vec::new(), next: 0, cursor: None }
    }

    /// From where on positions are to be asked for: from where the last answer ended, or as many
    /// as fit, counted from the end.
    pub fn wanted(&self) -> (cursor: isize)
        requires
            self.askable(),
        ensures
            cursor == self.start(),
    {
        match self.cursor {
            Some(n) => #[verifier::truncate]
            (n as isize),
            None => -#[verifier::truncate]
            (self.capacity as isize),
        }
    }

    /// One more position.
    pub fn push(&mut self, pos: Position)
        requires
            old(self).wf(),
            old(self).capacity > 0,
        ensures
            final(self).wf(),
            final(self).capacity == old(self).capacity,
            final(self).cursor == old(self).cursor,
            final(self).in_order() == most_recent(
                old(self).in_order().push(pos@),
                old(self).capacity as nat,
            ),
    {
        let ghost given = pos@;
        if self.items.len() < self.capacity {
            self.items.push(pos);
            assert(self.in_order() =~= old(self).in_order().push(given));
        } else {
            self.items[self.next] = pos;
            self.next = if self.next + 1 < self.capacity {
                self.next + 1
            } else {
                0
            };
            proof {
                let before = old(self).in_order().push(given);
                let after = most_recent(before, self.capacity as nat);
                assert(after =~= before.skip(1));
                assert forall|i: int| 0 <= i < after.len() implies #[trigger] self.in_order()[i]
                    == after[i] by {
                    if i < after.len() - 1 {
                        assert(after[i] == old(self).oldest(i + 1));
                    }
                }
                assert(self.in_order() =~= after);
            }
        }
    }

    /// Ask for positions and take them in. `fetch` gets them from where on they are wanted, and
    /// says where they end.
    pub fn poll<E, F: Fn(isize) -> Result<(Option<usize>, Vec<u8>), E>>(&mut self, fetch: &F) -> (
        count: Result<usize, E>)
        requires
            old(self).wf(),
            old(self).capacity > 0,
            old(self).askable(),
            forall|start: isize| call_requires(*fetch, (start,)),
        ensures
            match count {
                Ok(n) => exists|cursor: Option<usize>, data: Vec<u8>|
                    {
                        &&& #[trigger] call_ensures(
                            *fetch,
                            (old(self).start() as isize,),
                            Ok((cursor, data)),
                        )
                        &&& old(self).absorbed(*final(self), cursor, data@)
                        &&& n == data@.len() / 520
                    },
                Err(e) => {
                    &&& call_ensures(*fetch, (old(self).start() as isize,), Err(e))
                    &&& *final(self) == *old(self)
                },
            },
    {
        let start: isize = self.wanted();
        match fetch(start) {
            Ok((cursor, data)) => {
                let n: usize = self.absorb(cursor, data.as_slice());
                assert(call_ensures(
                    *fetch,
                    (old(self).start() as isize,),
                    Ok::<(Option<usize>, Vec<u8>), E>((cursor, data)),
                ));
                Ok(n)
            },
            Err(e) => Err(e),
        }
    }

    /// Take in the positions of an answer, which ended at `cursor`, and return how many there
    /// were. Bytes at the end that do not make a position are passed over.
    pub fn absorb(&mut self, cursor: Option<usize>, data: &[u8]) -> (count: usize)
        requires
            old(self).wf(),
            data@.len() >= 520 ==> old(self).capacity > 0,
        ensures
            old(self).absorbed(*final(self), cursor, data@),
            count == data@.len() / 520,
    {
        self.cursor = cursor;
        let n: usize = data.len() / SERIALIZED_LEN;
        let ghost all = positions_in(data@);
        let ghost start = old(self).in_order();
        let mut i: usize = 0;
        proof {
            assert(start + all.take(0) =~= start);
            assert(most_recent(start, self.capacity as nat) =~= start);
            assert(self.in_order() =~= start);
        }
        while i < n
            invariant
                i <= n,
                n == data@.len() / 520,
                data@.len() <= usize::MAX,
                n > 0 ==> self.capacity > 0,
                all == positions_in(data@),
                self.wf(),
                self.capacity == old(self).capacity,
                self.cursor == cursor,
                self.in_order() == most_recent(start + all.take(i as int), self.capacity as nat),
            decreases n - i,
        {
            let chunk = slice_range(data, i * SERIALIZED_LEN, i * SERIALIZED_LEN + SERIALIZED_LEN);
            let pos = Position::deserialize_from(chunk.as_slice());
            proof {
                let before = start + all.take(i as int);
                assert(pos@ == all[i as int]);
                assert(start + all.take(i + 1) =~= before.push(pos@));
                lemma_recent_push(before, pos@, self.capacity as nat);
            }
            self.push(pos);
            i = i + 1;
        }
        assert(all.take(i as int) =~= all);
        n
    }

    /// Whether this position can be drawn, its place being picked at random among all.
    pub open spec fn can_draw(self, drawn: Position) -> bool {
        exists|place: usize|
            {
                &&& place < self.items@.len()
                &&& #[trigger] can_be_picked(self.items@.len() as usize, place)
                &&& drawn == self.items@[place as int]
            }
    }

    /// How many positions the buffer holds.
    pub fn count(&self) -> (count: usize)
        ensures
            count == self.in_order().len(),
    {
        self.items.len()
    }

    /// The positions at the given places.
    pub fn pick<'a>(&'a self, places: &Vec<usize>) -> (picked: Vec<&'a Position>)
        requires
            forall|i: int| 0 <= i < places@.len() ==> #[trigger] places@[i] < self.items@.len(),
        ensures
            picked@.len() == places@.len(),
            forall|i: int|
                0 <= i < places@.len() ==> *(#[trigger] picked@[i])
                    == self.items@[places@[i] as int],
    {
        let mut picked: Vec<&'a Position> = Vec::new();
        let mut i: usize = 0;
        while i < places.len()
            invariant
                i <= places@.len(),
                forall|j: int|
                    0 <= j < places@.len() ==> #[trigger] places@[j] < self.items@.len(),
                picked@.len() == i,
                forall|j: int|
                    0 <= j < i ==> *(#[trigger] picked@[j]) == self.items@[places@[j] as int],
            decreases places@.len() - i,
        {
            picked.push(&self.items[places[i]]);
            i = i + 1;
        }
        picked
    }

    /// `n` positions drawn at random, none where the buffer is empty.
    pub fn sample<'a>(&'a self, n: usize) -> (drawn: Vec<&'a Position>)
        ensures
            drawn@.len() == if self.items@.len() == 0 {
                0
            } else {
                n as nat
            },
            forall|i: int| 0 <= i < drawn@.len() ==> self.items@.contains(*(#[trigger] drawn@[i])),
            forall|i: int| 0 <= i < drawn@.len() ==> self.can_draw(*(#[trigger] drawn@[i])),
    {
        let n0: usize = if self.items.len() == 0 {
            0
        } else {
            n
        };
        let mut places: Vec<usize> = Vec::new();
        while places.len() < n0
            invariant
                n0 > 0 ==> self.items@.len() > 0,
                places@.len() <= n0,
                forall|j: int|
                    0 <= j < places@.len() ==> #[trigger] places@[j] < self.items@.len()
                        && can_be_picked(self.items@.len() as usize, places@[j]),
            decreases n0 - places@.len(),
        {
            places.push(pick_below(self.items.len()));
        }
        let drawn = self.pick(&places);
        assert forall|i: int| 0 <= i < drawn@.len() implies self.can_draw(
            *(#[trigger] drawn@[i]),
        ) by {
            assert(can_be_picked(self.items@.len() as usize, places@[i]));
        }
        drawn
    }
}

/// All positions of the first `n` answers.
pub open spec fn positions_of(answers: Seq<(Option<usize>, Seq<u8>)>, n: nat) -> Seq<PositionView>
    decreases n,
{
    if n == 0 {
        Seq::empty()
    } else {
        positions_of(answers, (n - 1) as nat) + positions_in(answers[n - 1].1)
    }
}

/// Whether the answer after `i` others leads from one stage of the buffer to the next.
pub open spec fn took_in(
    buffers: Seq<PositionsBuffer>,
    answers: Seq<(Option<usize>, Seq<u8>)>,
    i: int,
) -> bool {
    buffers[i].absorbed(buffers[i + 1], answers[i].0, answers[i].1)
}

/// However many answers a new buffer has taken in, it holds the most recent positions of all of
/// them, as many as fit. It asks for as many as fit first, and then from where the answer before
/// ended, if that was said.
pub proof fn a_buffer_holds_the_most_recent(
    buffers: Seq<PositionsBuffer>,
    answers: Seq<(Option<usize>, Seq<u8>)>,
    n: int,
)
    requires
        buffers.len() == answers.len() + 1,
        buffers[0].wf(),
        buffers[0].capacity > 0,
        buffers[0].in_order().len() == 0,
        buffers[0].cursor is None,
        forall|i: int| 0 <= i < answers.len() ==> #[trigger] took_in(buffers, answers, i),
        0 <= n <= answers.len(),
    ensures
        buffers[n].wf(),
        buffers[n].capacity == buffers[0].capacity,
        buffers[n].in_order() == most_recent(
            positions_of(answers, n as nat),
            buffers[0].capacity as nat,
        ),
        buffers[n].start() == if n > 0 && answers[n - 1].0 is Some {
            (answers[n - 1].0->Some_0 as isize) as int
        } else {
            -(buffers[0].capacity as isize)
        },
    decreases n,
{
    let capacity = buffers[0].capacity as nat;
    if n == 0 {
        assert(buffers[0].in_order() =~= most_recent(positions_of(answers, 0), capacity));
    } else {
        a_buffer_holds_the_most_recent(buffers, answers, n - 1);
        assert(took_in(buffers, answers, n - 1));
        let before = positions_of(answers, (n - 1) as nat);
        let more = positions_in(answers[n - 1].1);
        assert(most_recent(most_recent(before, capacity) + more, capacity) =~= most_recent(
            before + more,
            capacity,
        ));
    }
}

/// The most recent of the most recent items and one more.
proof fn lemma_recent_push<T>(items: Seq<T>, item: T, capacity: nat)
    requires
        capacity > 0,
    ensures
        most_recent(most_recent(items, capacity).push(item), capacity) == most_recent(
            items.push(item),
            capacity,
        ),
{
    assert(most_recent(most_recent(items, capacity).push(item), capacity) =~= most_recent(
        items.push(item),
        capacity,
    ));
}

/// The bytes from `from` up to `to`.
fn slice_range(data: &[u8], from: usize, to: usize) -> (part: Vec<u8>)
    requires
        from <= to <= data@.len(),
    ensures
        part@ == data@.subrange(from as int, to as int),
{
    let mut part: Vec<u8> = Vec::new();
    let mut i: usize = from;
    while i < to
        invariant
            from <= i <= to,
            to <= data@.len(),
            part@ == data@.subrange(from as int, i as int),
        decreases to - i,
    {
        part.push(data[i]);
        assert(part@ =~= data@.subrange(from as int, i + 1));
        i = i + 1;
    }
    part
}

} // verus!
