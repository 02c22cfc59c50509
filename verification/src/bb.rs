//! Bitboard for 11x11 Hex
//!
//! ```text
//! MSB -> x   x   x   x   x   x   x   x   x   x   x
//!          x   x   x   x   x   x   x   x   x   x   x
//!            x   x   x   x   x   x   x   x   x   x   x
//!              x   x   x   x   x   x   x   x   x   x   x
//!                x   x   x   x   x   x   x   x   x   x   x
//!                  x   x   x   x   x   x   x   x   x   x   x
//!                    x   x   x   x   x   x   x   x   x   x   x
//!                      x   x   x   x   x   x   x   x   x   x   x
//!                        x   x   x   x   x   x   x   x   x   x   x
//!                          x   x   x   x   x   x   x   x   x   x   x
//!                            x   x   x   x   x   x   x   x   x   x   x <- LSB
//! ```
//!
//! Black is trying to connect left<->right, white is trying to connect top<->bottom

use vstd::prelude::*;
use crate::bits::{
    bits_where, has_bit, lemma_bit_test, lemma_bits_where, lemma_is_bits_where, lemma_meets,
    lemma_nth_bit, lemma_nth_bit_exists, lemma_ones_bound, lemma_ones_clear, lemma_ones_same,
    lemma_ones_set, lemma_ops, lemma_same_bits, lemma_single, nth_bit, ones_below,
};
use crate::hex::{
    adjacent, edges_mono, inside, lemma_linked_closed, lemma_linked_ends, lemma_linked_refl, lemma_linked_step, lemma_linked_trans,
    left_right, linked, top_bottom,
};
use crate::board_laws::{an_undecided_board_has_a_move, moves_are_the_empty_cells};
use crate::mcts;
use crate::mcts2;
use crate::rng::{random_below, random_mask};

pub use crate::pretty::BitboardPretty;

verus! {

/// Column 0, where black starts.
const BLACK_START: u128 = 0x1002004008010020040080100200400;

/// Column 10, where black is headed.
const BLACK_END: u128 = 0x0004008010020040080100200400801;

/// Row 0, where white starts.
const WHITE_START: u128 = 0x1ffc000000000000000000000000000;

/// Row 10, where white is headed.
const WHITE_END: u128 = 0x00000000000000000000000000007ff;

/// All 121 cells.
const BOARD: u128 = 0x1ffffffffffffffffffffffffffffff;

// Adjacency directions are E, SE, SW, W, NW, NE
//
//        4     5
//         \   /
//      3 -- * -- 0
//         /   \
//        2     1
//
// The adjacency KEEP masks are cells that have an adjacent cell in that
// direction. The adjacency SHL/SHR values are the size of the logical
// left/right shift to map a cell to its adjacent cell in that direction.
const ADJ0_SHR: u32 = 1;

const ADJ0_KEEP: u128 = 0x1ffbff7feffdffbff7feffdffbff7fe;

const ADJ1_SHR: u32 = 11;

const ADJ1_KEEP: u128 = 0x1fffffffffffffffffffffffffff800;

const ADJ2_SHR: u32 = 10;

const ADJ2_KEEP: u128 = 0x0ffdffbff7feffdffbff7feffdff800;

const ADJ3_SHL: u32 = 1;

const ADJ3_KEEP: u128 = 0x0ffdffbff7feffdffbff7feffdffbff;

const ADJ4_SHL: u32 = 11;

const ADJ4_KEEP: u128 = 0x0003fffffffffffffffffffffffffff;

const ADJ5_SHL: u32 = 10;

const ADJ5_KEEP: u128 = 0x0003ff7feffdffbff7feffdffbff7fe;

/// The bit that marks whose turn it is: set in `black` when sente moves next,
/// in `white` when gote does.
const NEXT_MOVE: u128 = 0x80000000_00000000_00000000_00000000;

/// The bit of a cell.
pub open spec fn pos(p: (int, int)) -> int {
    120 - 11 * p.0 - p.1
}

/// The cells whose bits are set in `x`.
pub open spec fn stones(x: u128) -> spec_fn((int, int)) -> bool {
    |p: (int, int)| inside(p) && has_bit(x, pos(p))
}

/// Whether `p` can be reached from a cell of `start` through cells of `traversable`.
pub open spec fn reached(start: u128, traversable: u128, p: (int, int)) -> bool {
    exists|s: (int, int)|
        stones(start)(s) && stones(traversable)(s) && #[trigger] linked(stones(traversable), s, p)
}

proof fn lemma_masks_raw(k: u128)
    by (bit_vector)
    requires
        k < 128,
    ensures
        (0x1002004008010020040080100200400u128 >> k) & 1 == 1 <==> k < 121 && k % 11 == 10,
        (0x0004008010020040080100200400801u128 >> k) & 1 == 1 <==> k < 121 && k % 11 == 0,
        (0x1ffc000000000000000000000000000u128 >> k) & 1 == 1 <==> 110 <= k && k < 121,
        (0x00000000000000000000000000007ffu128 >> k) & 1 == 1 <==> k < 11,
        (0x1ffffffffffffffffffffffffffffffu128 >> k) & 1 == 1 <==> k < 121,
        (0x80000000_00000000_00000000_00000000u128 >> k) & 1 == 1 <==> k == 127,
{
}

/// The bits of the masks.
proof fn lemma_masks(k: int)
    requires
        0 <= k < 128,
    ensures
        has_bit(BLACK_START, k) == (k < 121 && k % 11 == 10),
        has_bit(BLACK_END, k) == (k < 121 && k % 11 == 0),
        has_bit(WHITE_START, k) == (110 <= k < 121),
        has_bit(WHITE_END, k) == (k < 11),
        has_bit(BOARD, k) == (k < 121),
        has_bit(NEXT_MOVE, k) == (k == 127),
{
    lemma_masks_raw(k as u128);
}

/// What one step of the fill computes, over bits.
spec fn flow(cur: u128, traversable: u128) -> u128 {
    (cur | ((cur & 0x1ffbff7feffdffbff7feffdffbff7feu128) >> 1) | ((cur
        & 0x1fffffffffffffffffffffffffff800u128) >> 11) | ((cur
        & 0x0ffdffbff7feffdffbff7feffdff800u128) >> 10) | ((cur
        & 0x0ffdffbff7feffdffbff7feffdffbffu128) << 1) | ((cur
        & 0x0003fffffffffffffffffffffffffffu128) << 11) | ((cur
        & 0x0003ff7feffdffbff7feffdffbff7feu128) << 10)) & traversable
}

proof fn lemma_flow_raw(cur: u128, traversable: u128, k: u128)
    by (bit_vector)
    requires
        k < 128,
    ensures
        (flow(cur, traversable) >> k) & 1 == 1 <==> (traversable >> k) & 1 == 1 && ((cur >> k) & 1
            == 1 || (k < 121 && ((k % 11 != 10 && (cur >> ((k + 1) as u128)) & 1 == 1) || (k < 110
            && (cur >> ((k + 11) as u128)) & 1 == 1) || (k < 110 && k % 11 != 0 && (cur >> ((k
            + 10) as u128)) & 1 == 1) || (k % 11 != 0 && (cur >> ((k - 1) as u128)) & 1 == 1) || (k
            >= 11 && (cur >> ((k - 11) as u128)) & 1 == 1) || (k >= 11 && k % 11 != 10 && (cur
            >> ((k - 10) as u128)) & 1 == 1)))),
{
}

proof fn lemma_flow_grows(cur: u128, traversable: u128)
    by (bit_vector)
    requires
        cur & traversable == cur,
    ensures
        flow(cur, traversable) >= cur,
        flow(cur, traversable) & traversable == flow(cur, traversable),
{
}

/// One step of the fill adds exactly the traversable neighbours.
proof fn lemma_flow_cell(cur: u128, traversable: u128, p: (int, int))
    requires
        inside(p),
    ensures
        has_bit(flow(cur, traversable), pos(p)) <==> has_bit(traversable, pos(p)) && (has_bit(
            cur,
            pos(p),
        ) || exists|q: (int, int)| #[trigger] adjacent(q, p) && stones(cur)(q)),
{
    let k = pos(p);
    let r = p.0;
    let c = p.1;
    lemma_flow_raw(cur, traversable, k as u128);
    assert(k % 11 == 10 - c && k / 11 == 10 - r) by (nonlinear_arith)
        requires
            k == 120 - 11 * r - c,
            0 <= r < 11,
            0 <= c < 11,
    ;
    let (e, se, sw) = ((r, c - 1), (r - 1, c), (r - 1, c + 1));
    let (w, nw, ne) = ((r, c + 1), (r + 1, c), (r + 1, c - 1));
    assert(adjacent(e, p) && adjacent(se, p) && adjacent(sw, p));
    assert(adjacent(w, p) && adjacent(nw, p) && adjacent(ne, p));
    assert(pos(e) == k + 1 && pos(se) == k + 11 && pos(sw) == k + 10);
    assert(pos(w) == k - 1 && pos(nw) == k - 11 && pos(ne) == k - 10);
    if exists|q: (int, int)| #[trigger] adjacent(q, p) && stones(cur)(q) {
        let q = choose|q: (int, int)| #[trigger] adjacent(q, p) && stones(cur)(q);
        assert(q == e || q == se || q == sw || q == w || q == nw || q == ne);
    }
}

/// The cells of `traversable` that can be reached from `start`.
pub fn bb_fill(start: u128, traversable: u128) -> (filled: u128)
    ensures
        forall|p: (int, int)|
            inside(p) ==> (#[trigger] has_bit(filled, pos(p)) <==> reached(start, traversable, p)),
        forall|k: int|
            121 <= k < 128 ==> (#[trigger] has_bit(filled, k) <==> has_bit(start, k) && has_bit(
                traversable,
                k,
            )),
{
    let mut cur: u128 = start & traversable;
    proof {
        let on = stones(traversable);
        assert forall|k: int| 0 <= k < 128 implies #[trigger] has_bit(cur, k) == (has_bit(start, k)
            && has_bit(traversable, k)) by {
            lemma_ops(start, traversable, k);
        }
        assert(cur & traversable == cur) by {
            assert forall|k: int| 0 <= k < 128 implies #[trigger] has_bit(cur & traversable, k)
                == has_bit(cur, k) by {
                lemma_ops(cur, traversable, k);
            }
            lemma_same_bits(cur & traversable, cur);
        }
        assert forall|p: (int, int)| inside(p) && #[trigger] has_bit(cur, pos(p)) implies reached(
            start,
            traversable,
            p,
        ) by {
            lemma_linked_refl(on, p);
        }
    }
    loop
        invariant
            cur & traversable == cur,
            forall|k: int|
                0 <= k < 128 && has_bit(start, k) && has_bit(traversable, k) ==> #[trigger] has_bit(
                    cur,
                    k,
                ),
            forall|k: int| 0 <= k < 128 && #[trigger] has_bit(cur, k) ==> has_bit(traversable, k),
            forall|k: int| 121 <= k < 128 && #[trigger] has_bit(cur, k) ==> has_bit(start, k),
            forall|p: (int, int)|
                inside(p) && #[trigger] has_bit(cur, pos(p)) ==> reached(start, traversable, p),
        decreases u128::MAX - cur,
    {
        let mut next: u128 = cur;
        next = next | ((cur & ADJ0_KEEP) >> ADJ0_SHR);
        next = next | ((cur & ADJ1_KEEP) >> ADJ1_SHR);
        next = next | ((cur & ADJ2_KEEP) >> ADJ2_SHR);
        next = next | ((cur & ADJ3_KEEP) << ADJ3_SHL);
        next = next | ((cur & ADJ4_KEEP) << ADJ4_SHL);
        next = next | ((cur & ADJ5_KEEP) << ADJ5_SHL);
        next = next & traversable;
        proof {
            assert(next == flow(cur, traversable));
            lemma_flow_grows(cur, traversable);
        }
        if next == cur {
            proof {
                lemma_fill_closed(start, traversable, cur);
            }
            return cur;
        }
        proof {
            lemma_fill_step(start, traversable, cur);
        }
        cur = next;
    }
}

/// One step keeps what the fill has established.
proof fn lemma_fill_step(start: u128, traversable: u128, cur: u128)
    requires
        forall|k: int|
            0 <= k < 128 && has_bit(start, k) && has_bit(traversable, k) ==> #[trigger] has_bit(
                cur,
                k,
            ),
        forall|k: int| 0 <= k < 128 && #[trigger] has_bit(cur, k) ==> has_bit(traversable, k),
        forall|k: int| 121 <= k < 128 && #[trigger] has_bit(cur, k) ==> has_bit(start, k),
        forall|p: (int, int)|
            inside(p) && #[trigger] has_bit(cur, pos(p)) ==> reached(start, traversable, p),
    ensures
        ({
            let next = flow(cur, traversable);
            &&& forall|k: int|
                0 <= k < 128 && has_bit(start, k) && has_bit(traversable, k) ==> #[trigger] has_bit(
                    next,
                    k,
                )
            &&& forall|k: int|
                0 <= k < 128 && #[trigger] has_bit(next, k) ==> has_bit(traversable, k)
            &&& forall|k: int| 121 <= k < 128 && #[trigger] has_bit(next, k) ==> has_bit(start, k)
            &&& forall|p: (int, int)|
                inside(p) && #[trigger] has_bit(next, pos(p)) ==> reached(start, traversable, p)
        }),
{
    let next = flow(cur, traversable);
    let on = stones(traversable);
    assert forall|k: int|
        0 <= k < 128 && has_bit(start, k) && has_bit(
            traversable,
            k,
        ) implies #[trigger] has_bit(next, k) by {
        lemma_flow_raw(cur, traversable, k as u128);
        assert(has_bit(cur, k));
    }
    assert forall|k: int| 0 <= k < 128 && #[trigger] has_bit(next, k) implies has_bit(
        traversable,
        k,
    ) by {
        lemma_flow_raw(cur, traversable, k as u128);
    }
    assert forall|k: int| 121 <= k < 128 && #[trigger] has_bit(next, k) implies has_bit(
        start,
        k,
    ) by {
        lemma_flow_raw(cur, traversable, k as u128);
        assert(has_bit(cur, k));
    }
    assert forall|p: (int, int)| inside(p) && #[trigger] has_bit(next, pos(p)) implies reached(
        start,
        traversable,
        p,
    ) by {
        lemma_flow_cell(cur, traversable, p);
        if !has_bit(cur, pos(p)) {
            let q = choose|q: (int, int)| #[trigger] adjacent(q, p) && stones(cur)(q);
            assert(has_bit(cur, pos(q)));
            let s = choose|s: (int, int)|
                stones(start)(s) && on(s) && #[trigger] linked(on, s, q);
            lemma_linked_step(on, q, p);
            lemma_linked_trans(on, s, q, p);
        }
    }
}

/// Where a step adds nothing, everything that can be reached has been.
proof fn lemma_fill_closed(start: u128, traversable: u128, cur: u128)
    requires
        flow(cur, traversable) == cur,
        forall|k: int|
            0 <= k < 128 && has_bit(start, k) && has_bit(traversable, k) ==> #[trigger] has_bit(
                cur,
                k,
            ),
    ensures
        forall|p: (int, int)|
            inside(p) && reached(start, traversable, p) ==> #[trigger] has_bit(cur, pos(p)),
{
    let on = stones(traversable);
    let got = stones(cur);
    assert forall|p: (int, int)|
        inside(p) && reached(start, traversable, p) implies #[trigger] has_bit(cur, pos(p)) by {
        let s = choose|s: (int, int)| stones(start)(s) && on(s) && #[trigger] linked(on, s, p);
        assert forall|x: (int, int), y: (int, int)|
            got(x) && on(y) && #[trigger] adjacent(x, y) implies got(y) by {
            lemma_flow_cell(cur, traversable, y);
        }
        assert(has_bit(cur, pos(s)));
        lemma_linked_closed(on, got, s, p);
    }
}

/// Return the bit position of the ith set bit in the given mask
pub fn bb_nth_index(mask: u128, i: u32) -> (j: u32)
    requires
        i < ones_below(mask, 128),
    ensures
        j < 128,
        has_bit(mask, j as int),
        ones_below(mask, j as nat) == i,
{
    let mut left: u32 = i;
    let mut j: u32 = 0;
    while j < 127
        invariant
            j <= 127,
            i < ones_below(mask, 128),
            left + ones_below(mask, j as nat) == i,
        decreases 127 - j,
    {
        proof {
            lemma_bit_test(mask, j as int);
            lemma_ones_bound(mask, (j + 1) as nat, 128);
        }
        if mask & (1u128 << (j as u128)) != 0 {
            if left == 0 {
                return j;
            }
            left = left - 1;
        }
        j = j + 1;
    }
    j
}

/// A set of cells, one bit each.
#[derive(Copy, Clone)]
pub struct BitboardSet(pub u128);

/// The main bitboard struct. Implements `Copy` and most functions are `self`
#[derive(Copy, Clone, Debug)]
pub struct Bitboard {
    pub black: u128,
    pub white: u128,
}

/// The cell with index `n`, rows first.
pub open spec fn cell_of(n: int) -> (int, int) {
    (n / 11, n % 11)
}

impl Bitboard {
    /// Whether the two colors are apart, one of them is to move, and no bit outside the board and
    /// the move marks is set.
    pub open spec fn wf(self) -> bool {
        &&& forall|k: int| 0 <= k < 121 ==> !(#[trigger] has_bit(self.black, k) && has_bit(self.white, k))
        &&& forall|k: int|
            121 <= k < 127 ==> !#[trigger] has_bit(self.black, k) && !has_bit(self.white, k)
        &&& has_bit(self.black, 127) != has_bit(self.white, 127)
    }

    /// Whether black moves next.
    pub open spec fn black_next(self) -> bool {
        has_bit(self.black, 127)
    }

    /// The stone on the cell with index `n`: `Some(true)` for black, `Some(false)` for white.
    pub open spec fn stone(self, n: int) -> Option<bool> {
        if has_bit(self.black, 120 - n) {
            Some(true)
        } else if has_bit(self.white, 120 - n) {
            Some(false)
        } else {
            None
        }
    }

    /// Who has connected their edges, black looked at first.
    pub open spec fn winner(self) -> Option<bool> {
        if left_right(stones(self.black)) {
            Some(true)
        } else if top_bottom(stones(self.white)) {
            Some(false)
        } else {
            None
        }
    }

    /// How many stones have been placed.
    pub open spec fn stone_count(self) -> nat {
        ones_below(self.black, 127) + ones_below(self.white, 127)
    }

    /// The board after the next player has put a stone on the cell with index `n`.
    pub open spec fn played(self, n: int) -> Bitboard {
        Bitboard {
            black: bits_where(
                |k: int|
                    if k == 127 {
                        !has_bit(self.black, 127)
                    } else {
                        has_bit(self.black, k) || (self.black_next() && k == 120 - n)
                    },
            ),
            white: bits_where(
                |k: int|
                    if k == 127 {
                        !has_bit(self.white, 127)
                    } else {
                        has_bit(self.white, k) || (!self.black_next() && k == 120 - n)
                    },
            ),
        }
    }

    /// The board with rows and columns exchanged, and the players with them.
    pub open spec fn transposed(self) -> Bitboard {
        Bitboard {
            black: bits_where(
                |k: int|
                    if k == 127 {
                        !has_bit(self.black, 127)
                    } else {
                        k < 121 && self.stone(flip(120 - k)) == Some(false)
                    },
            ),
            white: bits_where(
                |k: int|
                    if k == 127 {
                        !has_bit(self.white, 127)
                    } else {
                        k < 121 && self.stone(flip(120 - k)) == Some(true)
                    },
            ),
        }
    }

    /// The legal moves among the first `n` cells with the boards they lead to, in order.
    pub open spec fn moves_below(self, n: nat) -> Seq<(usize, Bitboard)>
        decreases n,
    {
        if n == 0 {
            Seq::empty()
        } else if self.stone(n - 1) is None {
            self.moves_below((n - 1) as nat).push(((n - 1) as usize, self.played(n - 1)))
        } else {
            self.moves_below((n - 1) as nat)
        }
    }

    /// Whether the next player wins by moving to the cell with index `n`.
    pub open spec fn wins_at(self, n: int) -> bool {
        self.stone(n) is None && self.played(n).winner() == Some(self.black_next())
    }

    /// Whether this is the board after a move that wins at once, or there is none.
    pub open spec fn took_win(self, won: Option<Bitboard>) -> bool {
        match won {
            Some(board) => exists|n: int|
                0 <= n < 121 && #[trigger] self.wins_at(n) && board == self.played(n),
            None => forall|n: int| 0 <= n < 121 ==> !#[trigger] self.wins_at(n),
        }
    }
}

/// The index of a cell in the transposed board.
pub open spec fn flip(n: int) -> int {
    (n % 11) * 11 + n / 11
}

/// The fill meets the far edge exactly where the edges are connected.
proof fn lemma_black_fill(black: u128, filled: u128)
    requires
        forall|p: (int, int)|
            inside(p) ==> (#[trigger] has_bit(filled, pos(p)) <==> reached(BLACK_START, black, p)),
    ensures
        (filled & BLACK_END != 0) == left_right(stones(black)),
{
    let on = stones(black);
    lemma_meets(filled, BLACK_END);
    if filled & BLACK_END != 0 {
        let k = choose|k: int|
            0 <= k < 128 && #[trigger] has_bit(filled, k) && has_bit(BLACK_END, k);
        lemma_masks(k);
        let p = ((120 - k) / 11, 10int);
        assert(inside(p) && pos(p) == k);
        let s = choose|s: (int, int)|
            stones(BLACK_START)(s) && on(s) && #[trigger] linked(on, s, p);
        lemma_masks(pos(s));
        assert(s.1 == 0);
        assert(linked(on, (s.0, 0int), (p.0, 10int)));
    }
    if left_right(on) {
        let (a, b) = choose|a: int, b: int|
            0 <= a < 11 && 0 <= b < 11 && #[trigger] linked(on, (a, 0int), (b, 10int));
        let s = (a, 0int);
        let p = (b, 10int);
        lemma_masks(pos(s));
        lemma_masks(pos(p));
        lemma_linked_ends(on, s, p);
        assert(stones(BLACK_START)(s));
        assert(has_bit(filled, pos(p)));
        assert(has_bit(BLACK_END, pos(p)));
    }
}

proof fn lemma_white_fill(white: u128, filled: u128)
    requires
        forall|p: (int, int)|
            inside(p) ==> (#[trigger] has_bit(filled, pos(p)) <==> reached(WHITE_START, white, p)),
    ensures
        (filled & WHITE_END != 0) == top_bottom(stones(white)),
{
    let on = stones(white);
    lemma_meets(filled, WHITE_END);
    if filled & WHITE_END != 0 {
        let k = choose|k: int|
            0 <= k < 128 && #[trigger] has_bit(filled, k) && has_bit(WHITE_END, k);
        lemma_masks(k);
        let p = (10int, 10 - k);
        assert(inside(p) && pos(p) == k);
        let s = choose|s: (int, int)|
            stones(WHITE_START)(s) && on(s) && #[trigger] linked(on, s, p);
        lemma_masks(pos(s));
        assert(s.0 == 0);
        assert(linked(on, (0int, s.1), (10int, p.1)));
    }
    if top_bottom(on) {
        let (a, b) = choose|a: int, b: int|
            0 <= a < 11 && 0 <= b < 11 && #[trigger] linked(on, (0int, a), (10int, b));
        let s = (0int, a);
        let p = (10int, b);
        lemma_masks(pos(s));
        lemma_masks(pos(p));
        lemma_linked_ends(on, s, p);
        assert(stones(WHITE_START)(s));
        assert(has_bit(filled, pos(p)));
        assert(has_bit(WHITE_END, pos(p)));
    }
}

/// Without stones nothing is connected.
proof fn lemma_bare_edges(x: u128)
    requires
        forall|k: int| 0 <= k < 121 ==> !#[trigger] has_bit(x, k),
    ensures
        !left_right(stones(x)),
        !top_bottom(stones(x)),
{
    let on = stones(x);
    assert forall|p: (int, int), q: (int, int)| !#[trigger] linked(on, p, q) by {
        if linked(on, p, q) {
            lemma_linked_ends(on, p, q);
            assert(has_bit(x, pos(p)));
        }
    }
}

/// Setting the bit of cell `n` for the next player and passing the turn.
proof fn lemma_play_bits(b: Bitboard, n: int, r: Bitboard)
    requires
        0 <= n < 121,
        ({
            let one = 1u128 << ((120 - n) as u128);
            &&& r.black == (if b.black_next() {
                b.black | one
            } else {
                b.black
            }) ^ NEXT_MOVE
            &&& r.white == (if b.black_next() {
                b.white
            } else {
                b.white | one
            }) ^ NEXT_MOVE
        }),
    ensures
        r == b.played(n),
{
    let one = 1u128 << ((120 - n) as u128);
    let black = if b.black_next() {
        b.black | one
    } else {
        b.black
    };
    let white = if b.black_next() {
        b.white
    } else {
        b.white | one
    };
    let f = |k: int|
        if k == 127 {
            !has_bit(b.black, 127)
        } else {
            has_bit(b.black, k) || (b.black_next() && k == 120 - n)
        };
    let g = |k: int|
        if k == 127 {
            !has_bit(b.white, 127)
        } else {
            has_bit(b.white, k) || (!b.black_next() && k == 120 - n)
        };
    assert forall|k: int| 0 <= k < 128 implies #[trigger] has_bit(r.black, k) == f(k) && has_bit(
        r.white,
        k,
    ) == g(k) by {
        lemma_single(120 - n, k);
        lemma_ops(b.black, one, k);
        lemma_ops(b.white, one, k);
        lemma_ops(black, NEXT_MOVE, k);
        lemma_ops(white, NEXT_MOVE, k);
        lemma_masks(k);
    }
    assert forall|k: int| 0 <= k < 128 implies #[trigger] has_bit(r.white, k) == g(k) by {
        assert(has_bit(r.black, k) == f(k));
    }
    lemma_is_bits_where(r.black, f);
    lemma_is_bits_where(r.white, g);
    assert(b.played(n).black == bits_where(f));
    assert(b.played(n).white == bits_where(g));
}

/// The bits of the board after a move.
pub proof fn lemma_played(b: Bitboard, n: int)
    ensures
        forall|k: int|
            0 <= k < 127 ==> #[trigger] has_bit(b.played(n).black, k) == (has_bit(b.black, k) || (
            b.black_next() && k == 120 - n)),
        forall|k: int|
            0 <= k < 127 ==> #[trigger] has_bit(b.played(n).white, k) == (has_bit(b.white, k) || (
            !b.black_next() && k == 120 - n)),
        has_bit(b.played(n).black, 127) == !has_bit(b.black, 127),
        has_bit(b.played(n).white, 127) == !has_bit(b.white, 127),
{
    lemma_bits_where(
        |k: int|
            if k == 127 {
                !has_bit(b.black, 127)
            } else {
                has_bit(b.black, k) || (b.black_next() && k == 120 - n)
            },
    );
    lemma_bits_where(
        |k: int|
            if k == 127 {
                !has_bit(b.white, 127)
            } else {
                has_bit(b.white, k) || (!b.black_next() && k == 120 - n)
            },
    );
}

/// The stones of the board after a move: the mover's on its cell, unless black has one there.
pub proof fn lemma_played_stones(b: Bitboard, n: int)
    requires
        0 <= n < 121,
    ensures
        b.played(n).black_next() == !b.black_next(),
        forall|m: int|
            0 <= m < 121 ==> #[trigger] b.played(n).stone(m) == (if m == n && b.stone(n) != Some(
                true,
            ) {
                Some(b.black_next())
            } else {
                b.stone(m)
            }),
        b.stone(n) is None ==> b.played(n).stone_count() == b.stone_count() + 1,
{
    let r = b.played(n);
    lemma_played(b, n);
    assert forall|m: int| 0 <= m < 121 implies #[trigger] r.stone(m) == (if m == n && b.stone(n)
        != Some(true) {
        Some(b.black_next())
    } else {
        b.stone(m)
    }) by {
        let k = 120 - m;
        assert(has_bit(r.black, k) == (has_bit(b.black, k) || (b.black_next() && k == 120 - n)));
        assert(has_bit(r.white, k) == (has_bit(b.white, k) || (!b.black_next() && k == 120 - n)));
    }
    if b.stone(n) is None {
        assert(has_bit(r.black, 120 - n) == b.black_next());
        assert(has_bit(r.white, 120 - n) == !b.black_next());
        if b.black_next() {
            lemma_ones_set(b.black, r.black, 120 - n, 127);
            lemma_ones_same(b.white, r.white, 127);
        } else {
            lemma_ones_set(b.white, r.white, 120 - n, 127);
            lemma_ones_same(b.black, r.black, 127);
        }
    }
}

/// The empty board, black to move.
pub open spec fn start_board() -> Bitboard {
    Bitboard { black: 0x80000000_00000000_00000000_00000000, white: 0 }
}

/// What the empty board is like.
pub proof fn lemma_start_board()
    ensures
        start_board().wf(),
        start_board().black_next(),
        start_board().stone_count() == 0,
        forall|n: int| 0 <= n < 121 ==> #[trigger] start_board().stone(n) is None,
        start_board().winner() is None,
{
    let board = start_board();
    assert forall|k: int| 0 <= k < 128 implies #[trigger] has_bit(board.black, k) == (k == 127)
        && !has_bit(board.white, k) by {
        lemma_masks(k);
        lemma_ops(0, 0, k);
    }
    assert forall|k: int| 0 <= k < 128 implies !#[trigger] has_bit(board.white, k) by {
        lemma_ops(0, 0, k);
    }
    assert(has_bit(board.black, 127));
    lemma_ones_clear(board.black, 0, 127);
    lemma_ones_clear(board.white, 0, 127);
    lemma_bare_edges(board.black);
    lemma_bare_edges(board.white);
}

impl Bitboard {
    /// The empty board, black to move.
    pub fn new() -> (board: Bitboard)
        ensures
            board == start_board(),
            board.wf(),
            board.black_next(),
            board.stone_count() == 0,
            forall|n: int| 0 <= n < 121 ==> #[trigger] board.stone(n) is None,
            board.winner() is None,
    {
        let board = Bitboard { black: NEXT_MOVE, white: 0 };
        proof {
            lemma_start_board();
        }
        board
    }

    /// Whether black, who moves first, is to move.
    pub fn sente(&self) -> (sente: bool)
        ensures
            sente == self.black_next(),
    {
        proof {
            lemma_meets(self.black, NEXT_MOVE);
            assert forall|k: int| 0 <= k < 128 implies #[trigger] has_bit(NEXT_MOVE, k) == (k
                == 127) by {
                lemma_masks(k);
            }
            assert(has_bit(NEXT_MOVE, 127));
        }
        self.black & NEXT_MOVE != 0
    }

    /// The cells that hold no stone.
    pub fn empty(&self) -> (cells: BitboardSet)
        ensures
            forall|k: int|
                0 <= k < 128 ==> (#[trigger] has_bit(cells.0, k) <==> k < 121 && self.stone(120 - k)
                    is None),
    {
        proof {
            assert forall|k: int| 0 <= k < 128 implies (#[trigger] has_bit(
                BOARD & !(self.black | self.white),
                k,
            ) <==> k < 121 && self.stone(120 - k) is None) by {
                lemma_masks(k);
                lemma_ops(self.black, self.white, k);
                lemma_ops(self.black | self.white, 0, k);
                lemma_ops(BOARD, !(self.black | self.white), k);
            }
        }
        BitboardSet(BOARD & !(self.black | self.white))
    }

    /// Who has connected their edges, if anyone has.
    pub fn win(&self) -> (winner: Option<bool>)
        ensures
            winner == self.winner(),
    {
        let filled_black: u128 = bb_fill(BLACK_START, self.black);
        let filled_white: u128 = bb_fill(WHITE_START, self.white);
        proof {
            lemma_black_fill(self.black, filled_black);
            lemma_white_fill(self.white, filled_white);
        }
        let b = filled_black & BLACK_END != 0;
        let w = filled_white & WHITE_END != 0;
        match (b, w) {
            (true, _) => Some(true),
            (_, true) => Some(false),
            _ => None,
        }
    }

    /// How many stones are on the board.
    pub fn depth(&self) -> (count: usize)
        ensures
            count == self.stone_count(),
    {
        let black: u128 = self.black & !NEXT_MOVE;
        let white: u128 = self.white & !NEXT_MOVE;
        proof {
            assert forall|k: int| 0 <= k < 128 implies #[trigger] has_bit(black, k) == (has_bit(
                self.black,
                k,
            ) && k != 127) by {
                lemma_masks(k);
                lemma_ops(NEXT_MOVE, 0, k);
                lemma_ops(self.black, !NEXT_MOVE, k);
            }
            assert forall|k: int| 0 <= k < 128 implies #[trigger] has_bit(white, k) == (has_bit(
                self.white,
                k,
            ) && k != 127) by {
                lemma_masks(k);
                lemma_ops(NEXT_MOVE, 0, k);
                lemma_ops(self.white, !NEXT_MOVE, k);
            }
            lemma_ones_clear(black, 127, 128);
            lemma_ones_clear(white, 127, 128);
            lemma_ones_same(black, self.black, 127);
            lemma_ones_same(white, self.white, 127);
            lemma_ones_bound(black, 0, 128);
            lemma_ones_bound(white, 0, 128);
        }
        (black.count_ones() + white.count_ones()) as usize
    }

    /// The stone on the cell with index `i`, rows first.
    pub fn idx(&self, i: usize) -> (stone: Option<bool>)
        requires
            i < 121,
        ensures
            stone == self.stone(i as int),
    {
        let mask: u128 = 1u128 << ((120 - i) as u128);
        proof {
            lemma_bit_test(self.black, 120 - i);
            lemma_bit_test(self.white, 120 - i);
        }
        let b = (self.black & mask) != 0;
        let w = (self.white & mask) != 0;
        match (b, w) {
            (true, _) => Some(true),
            (false, true) => Some(false),
            (false, false) => None,
        }
    }

    /// The stone in row `r` and column `c`.
    pub fn rc(&self, r: usize, c: usize) -> (stone: Option<bool>)
        requires
            r < 11,
            c < 11,
        ensures
            stone == self.stone(11 * r + c),
    {
        self.idx(r * 11 + c)
    }

    /// The board after the next player has moved to row `r` and column `c`.
    pub fn with_move(self, r: usize, c: usize) -> (board: Bitboard)
        requires
            11 * r + c < 121,
        ensures
            board == self.played(11 * r + c),
            board.black_next() == !self.black_next(),
            forall|m: int|
                0 <= m < 121 ==> #[trigger] board.stone(m) == (if m == 11 * r + c && self.stone(
                    11 * r + c,
                ) != Some(true) {
                    Some(self.black_next())
                } else {
                    self.stone(m)
                }),
            self.stone(11 * r + c) is None ==> board.stone_count() == self.stone_count() + 1,
    {
        self.nth_child(r * 11 + c)
    }

    /// Whether a stone may be put on the cell with index `n`.
    pub fn nth_child_valid(&self, n: usize) -> (valid: bool)
        requires
            n < 121,
        ensures
            valid == (self.stone(n as int) is None),
    {
        let mask: u128 = 1u128 << ((120 - n) as u128);
        proof {
            lemma_bit_test(self.black | self.white, 120 - n);
            lemma_ops(self.black, self.white, 120 - n);
        }
        (self.black | self.white) & mask == 0
    }

    /// NOTE: this function does not check if the given move is valid!
    pub fn nth_child(self, n: usize) -> (board: Bitboard)
        requires
            n < 121,
        ensures
            board == self.played(n as int),
            board.black_next() == !self.black_next(),
            forall|m: int|
                0 <= m < 121 ==> #[trigger] board.stone(m) == (if m == n && self.stone(n as int)
                    != Some(true) {
                    Some(self.black_next())
                } else {
                    self.stone(m)
                }),
            self.stone(n as int) is None ==> board.stone_count() == self.stone_count() + 1,
    {
        let mask: u128 = 1u128 << ((120 - n) as u128);
        let mut board = self;
        match self.sente() {
            true => board.black = board.black | mask,
            false => board.white = board.white | mask,
        }
        board.black = board.black ^ NEXT_MOVE;
        board.white = board.white ^ NEXT_MOVE;
        proof {
            lemma_play_bits(self, n as int, board);
            lemma_played_stones(self, n as int);
        }
        board
    }

    /// The board after the first move that wins at once, if there is one.
    pub fn take_win(self) -> (won: Option<Bitboard>)
        ensures
            won is None <==> forall|n: int| 0 <= n < 121 ==> !#[trigger] self.wins_at(n),
            self.took_win(won),
            won matches Some(board) ==> board.winner() == Some(self.black_next()),
            won matches Some(board) ==> exists|n: int|
                0 <= n < 121 && #[trigger] self.wins_at(n) && board == self.played(n) && forall|
                    m: int,
                |
                    0 <= m < n ==> !#[trigger] self.wins_at(m),
    {
        let sente = self.sente();
        let mut i: usize = 0;
        while i < 121
            invariant
                i <= 121,
                sente == self.black_next(),
                forall|n: int| 0 <= n < i ==> !#[trigger] self.wins_at(n),
            decreases 121 - i,
        {
            if self.nth_child_valid(i) {
                let child = self.nth_child(i);
                let win = child.win();
                if win == Some(sente) {
                    assert(self.wins_at(i as int));
                    return Some(child);
                }
            }
            i = i + 1;
        }
        None
    }
}

/// What a color swap makes of a stone or of a winner.
pub open spec fn swapped(color: Option<bool>) -> Option<bool> {
    match color {
        Some(black) => Some(!black),
        None => None,
    }
}

/// `flip` undoes itself.
pub proof fn lemma_flip(n: int)
    requires
        0 <= n < 121,
    ensures
        0 <= flip(n) < 121,
        flip(flip(n)) == n,
        cell_of(flip(n)) == (cell_of(n).1, cell_of(n).0),
{
    let (r, c) = (n / 11, n % 11);
    assert(flip(n) == 11 * c + r);
    assert(flip(n) / 11 == c && flip(n) % 11 == r) by (nonlinear_arith)
        requires
            flip(n) == 11 * c + r,
            0 <= r < 11,
            0 <= c < 11,
    ;
    assert(n == 11 * r + c);
}

/// The cells of black's stones and of those that `mask` picks among the empty ones.
pub open spec fn rollout_black(board: Bitboard, mask: u128) -> spec_fn((int, int)) -> bool {
    |p: (int, int)|
        inside(p) && (has_bit(board.black, pos(p)) || (has_bit(mask, pos(p)) && !has_bit(
            board.white,
            pos(p),
        )))
}

/// Whether these bits can be drawn at random.
pub closed spec fn can_be_drawn(mask: u128) -> bool {
    call_ensures(random_mask, (), mask)
}

/// Whether this one of `n` can be picked at random.
pub closed spec fn can_be_picked(n: usize, pick: usize) -> bool {
    call_ensures(random_below, (n,), pick)
}

/// One of `n`, picked at random.
pub(crate) fn pick_below(n: usize) -> (pick: usize)
    requires
        n > 0,
    ensures
        pick < n,
        can_be_picked(n, pick),
{
    random_below(n)
}

/// Whether each can be picked at random among those that are left when its turn comes.
pub open spec fn picked_at_random(picks: Seq<usize>) -> bool {
    forall|i: int|
        0 <= i < picks.len() ==> can_be_picked((picks.len() - i) as usize, #[trigger] picks[i])
}

impl Bitboard {
    /// The board as white would see it if white were black: rows and columns are exchanged, the
    /// stones change color, and so does the player to move.
    pub fn transpose(&self) -> (board: Bitboard)
        ensures
            board == self.transposed(),
            board.black_next() == !self.black_next(),
            forall|n: int|
                0 <= n < 121 ==> #[trigger] board.stone(n) == swapped(self.stone(flip(n))),
    {
        let mut board = Bitboard {
            black: (self.black & NEXT_MOVE) ^ NEXT_MOVE,
            white: (self.white & NEXT_MOVE) ^ NEXT_MOVE,
        };
        proof {
            assert forall|k: int| 0 <= k < 128 implies #[trigger] has_bit(board.black, k) == (k
                == 127 && !has_bit(self.black, 127)) by {
                lemma_masks(k);
                lemma_ops(self.black, NEXT_MOVE, k);
                lemma_ops(self.black & NEXT_MOVE, NEXT_MOVE, k);
            }
            assert forall|k: int| 0 <= k < 128 implies #[trigger] has_bit(board.white, k) == (k
                == 127 && !has_bit(self.white, 127)) by {
                lemma_masks(k);
                lemma_ops(self.white, NEXT_MOVE, k);
                lemma_ops(self.white & NEXT_MOVE, NEXT_MOVE, k);
            }
            assert forall|k: int| 0 <= k < 121 implies 0 <= #[trigger] flip(120 - k) by {
                lemma_flip(120 - k);
            }
        }
        let mut n: usize = 0;
        while n < 121
            invariant
                n <= 121,
                forall|k: int|
                    0 <= k < 128 ==> #[trigger] has_bit(board.black, k) == (if k == 127 {
                        !has_bit(self.black, 127)
                    } else {
                        k < 121 && flip(120 - k) < n && self.stone(flip(120 - k)) == Some(false)
                    }),
                forall|k: int|
                    0 <= k < 128 ==> #[trigger] has_bit(board.white, k) == (if k == 127 {
                        !has_bit(self.white, 127)
                    } else {
                        k < 121 && flip(120 - k) < n && self.stone(flip(120 - k)) == Some(true)
                    }),
            decreases 121 - n,
        {
            let r: usize = n / 11;
            let c: usize = n % 11;
            let mask: u128 = 1u128 << ((120 - c * 11 - r) as u128);
            let ghost before = board;
            match self.rc(r, c) {
                Some(true) => board.white = board.white | mask,
                Some(false) => board.black = board.black | mask,
                None => {},
            }
            proof {
                lemma_flip(n as int);
                assert forall|k: int| 0 <= k < 128 implies #[trigger] has_bit(board.black, k) == (
                if k == 127 {
                    !has_bit(self.black, 127)
                } else {
                    k < 121 && flip(120 - k) < n + 1 && self.stone(flip(120 - k)) == Some(false)
                }) by {
                    lemma_single(120 - c * 11 - r, k);
                    lemma_ops(before.black, mask, k);
                    assert(has_bit(before.black, k) == has_bit(before.black, k));
                    if k < 121 {
                        lemma_flip(120 - k);
                    }
                }
                assert forall|k: int| 0 <= k < 128 implies #[trigger] has_bit(board.white, k) == (
                if k == 127 {
                    !has_bit(self.white, 127)
                } else {
                    k < 121 && flip(120 - k) < n + 1 && self.stone(flip(120 - k)) == Some(true)
                }) by {
                    lemma_single(120 - c * 11 - r, k);
                    lemma_ops(before.white, mask, k);
                    if k < 121 {
                        lemma_flip(120 - k);
                    }
                }
            }
            n = n + 1;
        }
        proof {
            let f = |k: int|
                if k == 127 {
                    !has_bit(self.black, 127)
                } else {
                    k < 121 && self.stone(flip(120 - k)) == Some(false)
                };
            let g = |k: int|
                if k == 127 {
                    !has_bit(self.white, 127)
                } else {
                    k < 121 && self.stone(flip(120 - k)) == Some(true)
                };
            assert forall|k: int| 0 <= k < 128 implies #[trigger] has_bit(board.black, k) == f(
                k,
            ) by {
                if k < 121 {
                    lemma_flip(120 - k);
                }
            }
            assert forall|k: int| 0 <= k < 128 implies #[trigger] has_bit(board.white, k) == g(
                k,
            ) by {
                if k < 121 {
                    lemma_flip(120 - k);
                }
            }
            lemma_is_bits_where(board.black, f);
            lemma_is_bits_where(board.white, g);
            assert(self.transposed().black == bits_where(f));
            assert(self.transposed().white == bits_where(g));
            assert forall|n: int| 0 <= n < 121 implies #[trigger] board.stone(n) == swapped(
                self.stone(flip(n)),
            ) by {
                assert(has_bit(board.black, 120 - n) == f(120 - n));
                assert(has_bit(board.white, 120 - n) == g(120 - n));
            }
        }
        board
    }

    /// Whether black wins when the empty cells that `mask` picks go to black and the others to
    /// white.
    pub fn rollout_with(&self, mask: u128) -> (black_wins: bool)
        ensures
            black_wins == left_right(rollout_black(*self, mask)),
    {
        let BitboardSet(empty) = self.empty();
        let black: u128 = self.black | (mask & empty);
        let filled: u128 = bb_fill(BLACK_START, black);
        proof {
            lemma_black_fill(black, filled);
            let on = stones(black);
            let want = rollout_black(*self, mask);
            assert forall|p: (int, int)| #[trigger] on(p) == want(p) by {
                if inside(p) {
                    let k = pos(p);
                    lemma_ops(self.black, mask & empty, k);
                    lemma_ops(mask, empty, k);
                    assert(has_bit(empty, k) <==> k < 121 && self.stone(120 - k) is None);
                }
            }
            assert forall|p: (int, int)| on(p) implies #[trigger] want(p) by {}
            edges_mono(on, want);
            edges_mono(want, on);
        }
        filled & BLACK_END != 0
    }

    /// Whether black wins when the empty cells are dealt out at random.
    pub fn mcts_rollout(&self) -> (black_wins: bool)
        ensures
            exists|mask: u128|
                can_be_drawn(mask) && black_wins == left_right(
                    #[trigger] rollout_black(*self, mask),
                ),
    {
        // this is not strictly correct because (mask & empty) and (!mask &
        // empty) should have the same number of set bits. but it's probably
        // close enough for mcts, and very fast
        let mask: u128 = random_mask();
        assert(can_be_drawn(mask));
        self.rollout_with(mask)
    }

    /// The legal moves with the boards they lead to, in the order of the cells.
    pub fn moves(&self) -> (moves: Vec<(usize, Bitboard)>)
        ensures
            moves@ == self.moves_below(121),
            forall|i: int|
                0 <= i < moves@.len() ==> {
                    let (n, child) = #[trigger] moves@[i];
                    n < 121 && self.stone(n as int) is None && child == self.played(n as int)
                },
            forall|i: int, j: int|
                0 <= i < j < moves@.len() ==> (#[trigger] moves@[i]).0 < (#[trigger] moves@[j]).0,
            forall|n: int|
                0 <= n < 121 && self.stone(n) is None ==> moves@.contains(
                    (n as usize, #[trigger] self.played(n)),
                ),
    {
        let mut moves: Vec<(usize, Bitboard)> = Vec::new();
        let mut n: usize = 0;
        while n < 121
            invariant
                n <= 121,
                moves@ == self.moves_below(n as nat),
            decreases 121 - n,
        {
            if self.nth_child_valid(n) {
                moves.push((n, self.nth_child(n)));
            }
            n = n + 1;
        }
        proof {
            moves_are_the_empty_cells(*self, 121);
        }
        moves
    }
}

/// A board whose rollouts deal the empty cells out evenly, in turns.
#[derive(Copy, Clone)]
pub struct ExactMcts(pub Bitboard);

/// The cells without a stone, as bits.
pub open spec fn free_bits(board: Bitboard) -> u128 {
    bits_where(|k: int| !has_bit(board.black, k) && !has_bit(board.white, k))
}

/// The board with a stone on the empty cell that comes `m`-th from the end.
pub open spec fn marked(board: Bitboard, black: bool, m: nat) -> Bitboard {
    let n = nth_bit(free_bits(board), m);
    if black {
        Bitboard { black: bits_where(|k: int| has_bit(board.black, k) || k == n), ..board }
    } else {
        Bitboard { white: bits_where(|k: int| has_bit(board.white, k) || k == n), ..board }
    }
}

/// The board after stones of alternating color have been put on the picked cells.
pub open spec fn played_out(board: Bitboard, picks: Seq<usize>) -> Bitboard
    decreases picks.len(),
{
    if picks.len() == 0 {
        board
    } else {
        let turns = (picks.len() - 1) as nat;
        marked(
            played_out(board, picks.drop_last()),
            board.black_next() == (turns % 2 == 0),
            picks.last() as nat,
        )
    }
}

/// How many cells hold no stone.
pub open spec fn free_count(board: Bitboard) -> nat {
    ones_below(free_bits(board), 121)
}

/// Whether each pick is among the cells that are left when its turn comes.
pub open spec fn picks_fit(board: Bitboard, picks: Seq<usize>) -> bool {
    &&& picks.len() == free_count(board)
    &&& forall|i: int| 0 <= i < picks.len() ==> #[trigger] picks[i] < picks.len() - i
}

/// Where a stone goes, and how many cells it leaves.
pub proof fn lemma_marked(board: Bitboard, black: bool, m: nat)
    requires
        m < free_count(board),
    ensures
        ({
            let n = nth_bit(free_bits(board), m);
            let r = marked(board, black, m);
            &&& 0 <= n < 121
            &&& !has_bit(board.black, n) && !has_bit(board.white, n)
            &&& forall|k: int|
                0 <= k < 128 ==> #[trigger] has_bit(r.black, k) == (has_bit(board.black, k) || (
                black && k == n))
            &&& forall|k: int|
                0 <= k < 128 ==> #[trigger] has_bit(r.white, k) == (has_bit(board.white, k) || (
                !black && k == n))
            &&& free_count(r) == free_count(board) - 1
        }),
{
    let free = free_bits(board);
    let n = nth_bit(free, m);
    let r = marked(board, black, m);
    lemma_nth_bit_exists(free, m, 121);
    lemma_bits_where(|k: int| !has_bit(board.black, k) && !has_bit(board.white, k));
    lemma_bits_where(|k: int| !has_bit(r.black, k) && !has_bit(r.white, k));
    lemma_bits_where(|k: int| has_bit(board.black, k) || k == n);
    lemma_bits_where(|k: int| has_bit(board.white, k) || k == n);
    assert(has_bit(free, n));
    let rest = free_bits(r);
    assert forall|k: int| 0 <= k < 121 && k != n implies #[trigger] has_bit(rest, k) == has_bit(
        free,
        k,
    ) by {}
    assert(!has_bit(rest, n));
    lemma_ones_set(rest, free, n, 121);
}

impl ExactMcts {
    /// The board with a stone on one more cell: `m` empty cells come after it.
    fn mark(board: Bitboard, black: bool, m: usize) -> (marked_board: Bitboard)
        requires
            m < free_count(board),
        ensures
            marked_board == marked(board, black, m as nat),
    {
        let free: u128 = !board.black & !board.white;
        proof {
            let f = |k: int| !has_bit(board.black, k) && !has_bit(board.white, k);
            assert forall|k: int| 0 <= k < 128 implies #[trigger] has_bit(free, k) == f(k) by {
                lemma_ops(board.black, 0, k);
                lemma_ops(board.white, 0, k);
                lemma_ops(!board.black, !board.white, k);
            }
            lemma_is_bits_where(free, f);
            assert(free == free_bits(board));
            lemma_ones_bound(free, 121, 128);
        }
        let n: u32 = bb_nth_index(free, m as u32);
        let one: u128 = 1u128 << (n as u128);
        proof {
            lemma_nth_bit(free, m as nat, n as int);
            let f = |k: int| has_bit(board.black, k) || k == n;
            let g = |k: int| has_bit(board.white, k) || k == n;
            assert forall|k: int| 0 <= k < 128 implies #[trigger] has_bit(board.black | one, k)
                == f(k) by {
                lemma_single(n as int, k);
                lemma_ops(board.black, one, k);
            }
            assert forall|k: int| 0 <= k < 128 implies #[trigger] has_bit(board.white | one, k)
                == g(k) by {
                lemma_single(n as int, k);
                lemma_ops(board.white, one, k);
            }
            lemma_is_bits_where(board.black | one, f);
            lemma_is_bits_where(board.white | one, g);
        }
        if black {
            Bitboard { black: board.black | one, white: board.white }
        } else {
            Bitboard { black: board.black, white: board.white | one }
        }
    }

    /// How many cells are left.
    fn moves_left(&self) -> (count: u32)
        ensures
            count == free_count(self.0),
            count <= 121,
    {
        let free: u128 = BOARD & !self.0.black & !self.0.white;
        proof {
            let board = self.0;
            let all = free_bits(board);
            lemma_bits_where(|k: int| !has_bit(board.black, k) && !has_bit(board.white, k));
            assert forall|k: int| 0 <= k < 128 implies #[trigger] has_bit(free, k) == (k < 121
                && has_bit(all, k)) by {
                lemma_masks(k);
                lemma_ops(board.black, 0, k);
                lemma_ops(board.white, 0, k);
                lemma_ops(BOARD, !board.black, k);
                lemma_ops(BOARD & !board.black, !board.white, k);
            }
            lemma_ones_clear(free, 121, 128);
            lemma_ones_same(free, all, 121);
            lemma_ones_bound(all, 0, 121);
        }
        free.count_ones()
    }

    /// Whether black wins when the remaining cells are filled in turns, each on the picked one of
    /// those that are left.
    pub fn playout(&self, picks: &Vec<usize>) -> (black_wins: bool)
        requires
            picks_fit(self.0, picks@),
        ensures
            black_wins == left_right(stones(played_out(self.0, picks@).black)),
    {
        let mut board = self.0;
        let mut sente = board.sente();
        let mut i: usize = 0;
        while i < picks.len()
            invariant
                i <= picks.len(),
                picks_fit(self.0, picks@),
                board == played_out(self.0, picks@.take(i as int)),
                sente == (self.0.black_next() == (i as nat % 2 == 0)),
                free_count(board) == picks.len() - i,
            decreases picks.len() - i,
        {
            proof {
                assert(picks@.take(i + 1).drop_last() == picks@.take(i as int));
                lemma_marked(board, sente, picks@[i as int] as nat);
            }
            board = Self::mark(board, sente, picks[i]);
            sente = !sente;
            i = i + 1;
        }
        assert(picks@.take(i as int) == picks@);
        let filled: u128 = bb_fill(BLACK_START, board.black);
        proof {
            lemma_black_fill(board.black, filled);
        }
        filled & BLACK_END != 0
    }

    /// Whether black wins when the remaining cells are filled at random, in turns.
    pub fn mcts_rollout(&self) -> (black_wins: bool)
        ensures
            exists|picks: Seq<usize>|
                picks_fit(self.0, picks) && picked_at_random(picks) && black_wins == left_right(
                    stones((#[trigger] played_out(self.0, picks)).black),
                ),
    {
        let moves_left: u32 = self.moves_left();
        let mut picks: Vec<usize> = Vec::new();
        let mut i: u32 = 0;
        while i < moves_left
            invariant
                i <= moves_left,
                picks@.len() == i,
                forall|j: int| 0 <= j < i ==> #[trigger] picks@[j] < moves_left - j,
                forall|j: int|
                    0 <= j < i ==> can_be_picked((moves_left - j) as usize, #[trigger] picks@[j]),
            decreases moves_left - i,
        {
            picks.push(pick_below((moves_left - i) as usize));
            i = i + 1;
        }
        self.playout(&picks)
    }
}

/// There are moves unless the game is over.
proof fn lemma_moves(board: Bitboard)
    ensures
        board.moves_below(121).len() <= 121,
        board.winner() is None ==> board.moves_below(121).len() > 0,
{
    moves_are_the_empty_cells(board, 121);
    if board.winner() is None {
        an_undecided_board_has_a_move(board);
    }
}

impl mcts::MctsState for Bitboard {
    open spec fn valid(&self) -> bool {
        true
    }

    open spec fn outcome(&self) -> Option<bool> {
        self.winner()
    }

    open spec fn successors(&self) -> Seq<(usize, Self)> {
        self.moves_below(121)
    }

    open spec fn may_end(&self, sente_win: bool) -> bool {
        exists|mask: u128|
            can_be_drawn(mask) && sente_win == left_right(#[trigger] rollout_black(*self, mask))
    }

    open spec fn move_limit() -> nat {
        121
    }

    fn init() -> (state: Self)
        ensures
            state == start_board(),
    {
        Self::new()
    }

    fn max_move_count() -> (count: usize) {
        121
    }

    fn terminal(&self) -> (winner: Option<bool>) {
        self.win()
    }

    fn rollout(&self) -> (sente_win: bool) {
        self.mcts_rollout()
    }

    fn children(&self) -> (children: Vec<(usize, Self)>) {
        proof {
            lemma_moves(*self);
        }
        self.moves()
    }
}

impl mcts2::MctsState for Bitboard {
    open spec fn valid(&self) -> bool {
        true
    }

    open spec fn outcome(&self) -> Option<bool> {
        self.winner()
    }

    open spec fn successors(&self) -> Seq<Self> {
        Seq::new(self.moves_below(121).len(), |i: int| self.moves_below(121)[i].1)
    }

    open spec fn may_end(&self, sente_win: bool) -> bool {
        exists|mask: u128|
            can_be_drawn(mask) && sente_win == left_right(#[trigger] rollout_black(*self, mask))
    }

    open spec fn move_limit() -> nat {
        121
    }

    fn init() -> (state: Self)
        ensures
            state == start_board(),
    {
        Self::new()
    }

    fn max_move_count() -> (count: usize) {
        121
    }

    fn terminal(&self) -> (winner: Option<bool>) {
        self.win()
    }

    fn rollout(&self) -> (sente_win: bool) {
        self.mcts_rollout()
    }

    fn children(&self) -> (children: Vec<Self>) {
        proof {
            lemma_moves(*self);
        }
        let moves = self.moves();
        let mut children: Vec<Self> = Vec::new();
        let mut i: usize = 0;
        while i < moves.len()
            invariant
                i <= moves@.len(),
                children@.len() == i,
                forall|j: int| 0 <= j < i ==> #[trigger] children@[j] == moves@[j].1,
            decreases moves@.len() - i,
        {
            children.push(moves[i].1);
            i = i + 1;
        }
        children
    }
}

impl mcts::MctsState for ExactMcts {
    open spec fn valid(&self) -> bool {
        true
    }

    open spec fn outcome(&self) -> Option<bool> {
        self.0.winner()
    }

    open spec fn successors(&self) -> Seq<(usize, Self)> {
        Seq::new(
            self.0.moves_below(121).len(),
            |i: int| (self.0.moves_below(121)[i].0, ExactMcts(self.0.moves_below(121)[i].1)),
        )
    }

    open spec fn may_end(&self, sente_win: bool) -> bool {
        exists|picks: Seq<usize>|
            picks_fit(self.0, picks) && picked_at_random(picks) && sente_win == left_right(
                stones((#[trigger] played_out(self.0, picks)).black),
            )
    }

    open spec fn move_limit() -> nat {
        121
    }

    fn init() -> (state: Self)
        ensures
            state.0 == start_board(),
    {
        Self(Bitboard::new())
    }

    fn max_move_count() -> (count: usize) {
        121
    }

    fn terminal(&self) -> (winner: Option<bool>) {
        self.0.win()
    }

    fn rollout(&self) -> (sente_win: bool) {
        self.mcts_rollout()
    }

    fn children(&self) -> (children: Vec<(usize, Self)>) {
        proof {
            lemma_moves(self.0);
        }
        let moves = self.0.moves();
        let mut children: Vec<(usize, Self)> = Vec::new();
        let mut i: usize = 0;
        while i < moves.len()
            invariant
                i <= moves@.len(),
                children@.len() == i,
                forall|j: int|
                    0 <= j < i ==> #[trigger] children@[j] == (moves@[j].0, ExactMcts(moves@[j].1)),
            decreases moves@.len() - i,
        {
            children.push((moves[i].0, Self(moves[i].1)));
            i = i + 1;
        }
        children
    }
}

impl mcts2::MctsState for ExactMcts {
    open spec fn valid(&self) -> bool {
        true
    }

    open spec fn outcome(&self) -> Option<bool> {
        self.0.winner()
    }

    open spec fn successors(&self) -> Seq<Self> {
        Seq::new(
            self.0.moves_below(121).len(),
            |i: int| ExactMcts(self.0.moves_below(121)[i].1),
        )
    }

    open spec fn may_end(&self, sente_win: bool) -> bool {
        exists|picks: Seq<usize>|
            picks_fit(self.0, picks) && picked_at_random(picks) && sente_win == left_right(
                stones((#[trigger] played_out(self.0, picks)).black),
            )
    }

    open spec fn move_limit() -> nat {
        121
    }

    fn init() -> (state: Self)
        ensures
            state.0 == start_board(),
    {
        Self(Bitboard::new())
    }

    fn max_move_count() -> (count: usize) {
        121
    }

    fn terminal(&self) -> (winner: Option<bool>) {
        self.0.win()
    }

    fn rollout(&self) -> (sente_win: bool) {
        self.mcts_rollout()
    }

    fn children(&self) -> (children: Vec<Self>) {
        proof {
            lemma_moves(self.0);
        }
        let moves = self.0.moves();
        let mut children: Vec<Self> = Vec::new();
        let mut i: usize = 0;
        while i < moves.len()
            invariant
                i <= moves@.len(),
                children@.len() == i,
                forall|j: int| 0 <= j < i ==> #[trigger] children@[j] == ExactMcts(moves@[j].1),
            decreases moves@.len() - i,
        {
            children.push(Self(moves[i].1));
            i = i + 1;
        }
        children
    }
}

} // verus!
