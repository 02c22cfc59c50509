//! What holds of every Hex game played on the bitboard.

use vstd::prelude::*;
use crate::bb::{
    flip, free_bits, free_count, lemma_flip, lemma_marked, lemma_played, lemma_start_board, marked,
    picks_fit, played_out, pos, rollout_black, start_board, stones, swapped, Bitboard,
};
use crate::bits::{
    has_bit, lemma_bits_where, lemma_ones_bound, lemma_ones_clear, lemma_ones_same, lemma_ones_set,
    lemma_same_bits, ones_below,
};
use crate::hex::{
    edges_mono, exactly_one_connects, inside, left_right, left_right_mirror, mirror,
    never_both_connect, top_bottom,
};

verus! {

/// A legal move keeps the board well formed, passes the turn, adds one stone of the mover's color
/// on its cell, and leaves all other cells alone.
pub proof fn a_move_places_one_stone(b: Bitboard, n: int)
    requires
        b.wf(),
        0 <= n < 121,
        b.stone(n) is None,
    ensures
        b.played(n).wf(),
        b.played(n).black_next() == !b.black_next(),
        b.played(n).stone_count() == b.stone_count() + 1,
        b.played(n).stone(n) == Some(b.black_next()),
        forall|m: int| 0 <= m < 121 && m != n ==> #[trigger] b.played(n).stone(m) == b.stone(m),
{
    let r = b.played(n);
    lemma_played(b, n);
    assert forall|k: int| 0 <= k < 121 implies !(#[trigger] has_bit(r.black, k) && has_bit(
        r.white,
        k,
    )) by {
        assert(!(has_bit(b.black, k) && has_bit(b.white, k)));
        assert(has_bit(r.white, k) == (has_bit(b.white, k) || (!b.black_next() && k == 120 - n)));
    }
    assert forall|k: int| 121 <= k < 127 implies !#[trigger] has_bit(r.black, k) && !has_bit(
        r.white,
        k,
    ) by {
        assert(!has_bit(b.black, k));
        assert(!has_bit(b.white, k));
        assert(has_bit(r.white, k) == (has_bit(b.white, k) || (!b.black_next() && k == 120 - n)));
    }
    if b.black_next() {
        lemma_ones_set(b.black, r.black, 120 - n, 127);
        lemma_ones_same(b.white, r.white, 127);
    } else {
        lemma_ones_set(b.white, r.white, 120 - n, 127);
        lemma_ones_same(b.black, r.black, 127);
    }
    assert forall|m: int| 0 <= m < 121 && m != n implies #[trigger] r.stone(m) == b.stone(m) by {
        assert(has_bit(r.black, 120 - m) == (has_bit(b.black, 120 - m) || (b.black_next() && 120 - m
            == 120 - n)));
        assert(has_bit(r.white, 120 - m) == (has_bit(b.white, 120 - m) || (!b.black_next() && 120
            - m == 120 - n)));
    }
    assert(has_bit(r.black, 120 - n) == (has_bit(b.black, 120 - n) || b.black_next()));
    assert(has_bit(r.white, 120 - n) == (has_bit(b.white, 120 - n) || !b.black_next()));
}

proof fn lemma_colors_apart(b: Bitboard)
    requires
        b.wf(),
    ensures
        forall|p: (int, int)|
            #[trigger] stones(b.white)(p) ==> inside(p) && !stones(b.black)(p),
{
    assert forall|p: (int, int)| #[trigger] stones(b.white)(p) implies inside(p) && !stones(
        b.black,
    )(p) by {
        assert(!(has_bit(b.black, pos(p)) && has_bit(b.white, pos(p))));
    }
}

/// The players never connect their edges both.
pub proof fn at_most_one_side_connects(b: Bitboard)
    requires
        b.wf(),
    ensures
        !(left_right(stones(b.black)) && top_bottom(stones(b.white))),
{
    lemma_colors_apart(b);
    never_both_connect(stones(b.black), stones(b.white));
}

/// A board without an empty cell has a winner, even where some cells hold stones of both colors.
pub proof fn a_full_board_is_decided(b: Bitboard)
    requires
        forall|n: int| 0 <= n < 121 ==> #[trigger] b.stone(n) is Some,
    ensures
        b.winner() is Some,
{
    let black = stones(b.black);
    let rest = |p: (int, int)| inside(p) && !black(p);
    exactly_one_connects(black, rest);
    assert forall|p: (int, int)| rest(p) implies #[trigger] stones(b.white)(p) by {
        assert(b.stone(11 * p.0 + p.1) is Some);
    }
    edges_mono(rest, stones(b.white));
}

/// A board that nobody has won yet has a legal move.
pub proof fn an_undecided_board_has_a_move(b: Bitboard)
    requires
        b.winner() is None,
    ensures
        b.moves_below(121).len() > 0,
{
    if forall|n: int| 0 <= n < 121 ==> #[trigger] b.stone(n) is Some {
        a_full_board_is_decided(b);
    }
    let n = choose|n: int| 0 <= n < 121 && !(#[trigger] b.stone(n) is Some);
    lemma_moves_grow(b, (n + 1) as nat, 121);
}

proof fn lemma_moves_grow(b: Bitboard, m: nat, n: nat)
    requires
        m <= n,
    ensures
        b.moves_below(m).len() <= b.moves_below(n).len(),
        b.moves_below(n).len() <= n,
    decreases n,
{
    if m < n {
        lemma_moves_grow(b, m, (n - 1) as nat);
    } else if n > 0 {
        lemma_moves_grow(b, (m - 1) as nat, (n - 1) as nat);
    }
}

/// The moves of a board are its empty cells in ascending order, each with the board it leads to.
pub proof fn moves_are_the_empty_cells(b: Bitboard, n: nat)
    requires
        n <= 121,
    ensures
        b.moves_below(n).len() <= n,
        forall|i: int|
            0 <= i < b.moves_below(n).len() ==> {
                let (m, child) = #[trigger] b.moves_below(n)[i];
                m < n && b.stone(m as int) is None && child == b.played(m as int)
            },
        forall|i: int, j: int|
            0 <= i < j < b.moves_below(n).len() ==> (#[trigger] b.moves_below(n)[i]).0 < (
            #[trigger] b.moves_below(n)[j]).0,
        forall|m: int|
            0 <= m < n && b.stone(m) is None ==> b.moves_below(n).contains(
                (m as usize, #[trigger] b.played(m)),
            ),
    decreases n,
{
    if n > 0 {
        let less = b.moves_below((n - 1) as nat);
        let all = b.moves_below(n);
        moves_are_the_empty_cells(b, (n - 1) as nat);
        assert forall|m: int| 0 <= m < n && b.stone(m) is None implies all.contains(
            (m as usize, #[trigger] b.played(m)),
        ) by {
            if m < n - 1 {
                let i = choose|i: int|
                    0 <= i < less.len() && less[i] == (m as usize, b.played(m));
                assert(all[i] == less[i]);
            } else {
                assert(all[all.len() - 1] == (m as usize, b.played(m)));
            }
        }
    }
}

/// Once a player has won, further moves do not change that.
pub proof fn a_win_lasts(b: Bitboard, n: int)
    requires
        b.wf(),
        0 <= n < 121,
        b.stone(n) is None,
        b.winner() is Some,
    ensures
        b.played(n).winner() == b.winner(),
{
    let r = b.played(n);
    a_move_places_one_stone(b, n);
    lemma_played(b, n);
    assert forall|p: (int, int)| stones(b.black)(p) implies #[trigger] stones(r.black)(p) by {
        assert(has_bit(r.black, pos(p)));
    }
    assert forall|p: (int, int)| stones(b.white)(p) implies #[trigger] stones(r.white)(p) by {
        assert(has_bit(r.white, pos(p)));
    }
    edges_mono(stones(b.black), stones(r.black));
    edges_mono(stones(b.white), stones(r.white));
    at_most_one_side_connects(b);
    at_most_one_side_connects(r);
}

/// The bits of a transposed board.
pub proof fn lemma_transposed(b: Bitboard)
    ensures
        forall|k: int|
            0 <= k < 128 ==> #[trigger] has_bit(b.transposed().black, k) == (if k == 127 {
                !has_bit(b.black, 127)
            } else {
                k < 121 && b.stone(flip(120 - k)) == Some(false)
            }),
        forall|k: int|
            0 <= k < 128 ==> #[trigger] has_bit(b.transposed().white, k) == (if k == 127 {
                !has_bit(b.white, 127)
            } else {
                k < 121 && b.stone(flip(120 - k)) == Some(true)
            }),
{
    lemma_bits_where(
        |k: int|
            if k == 127 {
                !has_bit(b.black, 127)
            } else {
                k < 121 && b.stone(flip(120 - k)) == Some(false)
            },
    );
    lemma_bits_where(
        |k: int|
            if k == 127 {
                !has_bit(b.white, 127)
            } else {
                k < 121 && b.stone(flip(120 - k)) == Some(true)
            },
    );
}

/// Transposing moves each stone to the mirrored cell and swaps its color and the turn.
pub proof fn transpose_mirrors_and_swaps(b: Bitboard)
    requires
        b.wf(),
    ensures
        b.transposed().wf(),
        b.transposed().black_next() == !b.black_next(),
        forall|n: int|
            0 <= n < 121 ==> #[trigger] b.transposed().stone(n) == swapped(b.stone(flip(n))),
{
    let t = b.transposed();
    lemma_transposed(b);
    assert forall|k: int| 0 <= k < 121 implies !(#[trigger] has_bit(t.black, k) && has_bit(
        t.white,
        k,
    )) by {
        assert(has_bit(t.white, k) == (b.stone(flip(120 - k)) == Some(true)));
    }
    assert forall|k: int| 121 <= k < 127 implies !#[trigger] has_bit(t.black, k) && !has_bit(
        t.white,
        k,
    ) by {
        assert(has_bit(t.white, k) == false);
    }
    assert(has_bit(t.black, 127) == !has_bit(b.black, 127));
    assert(has_bit(t.white, 127) == !has_bit(b.white, 127));
    assert forall|n: int| 0 <= n < 121 implies #[trigger] t.stone(n) == swapped(
        b.stone(flip(n)),
    ) by {
        assert(has_bit(t.black, 120 - n) == (b.stone(flip(n)) == Some(false)));
        assert(has_bit(t.white, 120 - n) == (b.stone(flip(n)) == Some(true)));
    }
}

/// Boards with the same stones and the same player to move are equal.
pub proof fn lemma_same_board(a: Bitboard, b: Bitboard)
    requires
        a.wf(),
        b.wf(),
        a.black_next() == b.black_next(),
        forall|n: int| 0 <= n < 121 ==> #[trigger] a.stone(n) == b.stone(n),
    ensures
        a == b,
{
    assert forall|k: int| 0 <= k < 128 implies #[trigger] has_bit(a.black, k) == has_bit(
        b.black,
        k,
    ) by {
        if k < 121 {
            assert(a.stone(120 - k) == b.stone(120 - k));
        } else if k < 127 {
            assert(!has_bit(b.black, k));
        }
    }
    assert forall|k: int| 0 <= k < 128 implies #[trigger] has_bit(a.white, k) == has_bit(
        b.white,
        k,
    ) by {
        if k < 121 {
            assert(a.stone(120 - k) == b.stone(120 - k));
            assert(!(has_bit(a.black, k) && has_bit(a.white, k)));
            assert(!(has_bit(b.black, k) && has_bit(b.white, k)));
        } else if k < 127 {
            assert(!has_bit(a.black, k) && !has_bit(a.white, k));
            assert(!has_bit(b.black, k) && !has_bit(b.white, k));
        }
    }
    lemma_same_bits(a.black, b.black);
    lemma_same_bits(a.white, b.white);
}

/// Transposing twice gives the board back.
pub proof fn transpose_undoes_itself(b: Bitboard)
    requires
        b.wf(),
    ensures
        b.transposed().transposed() == b,
{
    let t = b.transposed();
    let tt = t.transposed();
    transpose_mirrors_and_swaps(b);
    transpose_mirrors_and_swaps(t);
    assert forall|n: int| 0 <= n < 121 implies #[trigger] tt.stone(n) == b.stone(n) by {
        lemma_flip(n);
        assert(t.stone(flip(n)) == swapped(b.stone(flip(flip(n)))));
    }
    lemma_same_board(tt, b);
}

/// The transposed board has the other winner.
pub proof fn transpose_swaps_the_winner(b: Bitboard)
    requires
        b.wf(),
    ensures
        b.transposed().winner() == swapped(b.winner()),
{
    let t = b.transposed();
    transpose_mirrors_and_swaps(b);
    lemma_transposed(b);
    lemma_mirrored_stones(b);
    left_right_mirror(stones(b.black));
    left_right_mirror(stones(b.white));
    edges_mono(mirror(stones(b.black)), stones(t.white));
    edges_mono(stones(t.white), mirror(stones(b.black)));
    edges_mono(mirror(stones(b.white)), stones(t.black));
    edges_mono(stones(t.black), mirror(stones(b.white)));
    at_most_one_side_connects(b);
    at_most_one_side_connects(t);
}

proof fn lemma_mirrored_stones(b: Bitboard)
    requires
        b.wf(),
    ensures
        forall|p: (int, int)| #[trigger]
            stones(b.transposed().white)(p) == mirror(stones(b.black))(p),
        forall|p: (int, int)| #[trigger]
            mirror(stones(b.black))(p) == stones(b.transposed().white)(p),
        forall|p: (int, int)| #[trigger]
            stones(b.transposed().black)(p) == mirror(stones(b.white))(p),
        forall|p: (int, int)| #[trigger]
            mirror(stones(b.white))(p) == stones(b.transposed().black)(p),
{
    let t = b.transposed();
    lemma_transposed(b);
    assert forall|p: (int, int)|
        inside(p) implies has_bit(t.white, #[trigger] pos(p)) == has_bit(b.black, pos((p.1, p.0)))
        && has_bit(t.black, pos(p)) == has_bit(b.white, pos((p.1, p.0))) by {
        let k = pos(p);
        let n = 120 - k;
        lemma_flip(n);
        assert(n / 11 == p.0 && n % 11 == p.1) by (nonlinear_arith)
            requires
                n == 11 * p.0 + p.1,
                0 <= p.0 < 11,
                0 <= p.1 < 11,
        ;
        assert(120 - flip(n) == pos((p.1, p.0)));
        assert(has_bit(t.white, k) == (b.stone(flip(n)) == Some(true)));
        assert(has_bit(t.black, k) == (b.stone(flip(n)) == Some(false)));
        let j = pos((p.1, p.0));
        assert(!(has_bit(b.black, j) && has_bit(b.white, j)));
    }
    assert forall|p: (int, int)| #[trigger] stones(t.white)(p) == mirror(stones(b.black))(p) by {
        if inside(p) {
            assert(has_bit(t.white, pos(p)) == has_bit(b.black, pos((p.1, p.0))));
        }
    }
    assert forall|p: (int, int)| #[trigger] stones(t.black)(p) == mirror(stones(b.white))(p) by {
        if inside(p) {
            assert(has_bit(t.black, pos(p)) == has_bit(b.white, pos((p.1, p.0))));
        }
    }
}

/// Moving and transposing commute: a move goes to the mirrored cell.
pub proof fn transpose_commutes_with_moves(b: Bitboard, n: int)
    requires
        b.wf(),
        0 <= n < 121,
        b.stone(n) is None,
    ensures
        b.transposed().stone(flip(n)) is None,
        b.transposed().played(flip(n)) == b.played(n).transposed(),
{
    let t = b.transposed();
    lemma_flip(n);
    transpose_mirrors_and_swaps(b);
    assert(t.stone(flip(n)) == swapped(b.stone(flip(flip(n)))));
    a_move_places_one_stone(b, n);
    a_move_places_one_stone(t, flip(n));
    transpose_mirrors_and_swaps(b.played(n));
    let x = t.played(flip(n));
    let y = b.played(n).transposed();
    assert forall|m: int| 0 <= m < 121 implies #[trigger] x.stone(m) == y.stone(m) by {
        lemma_flip(m);
        assert(y.stone(m) == swapped(b.played(n).stone(flip(m))));
        if m == flip(n) {
        } else {
            assert(flip(m) != n);
            assert(x.stone(m) == t.stone(m));
            assert(t.stone(m) == swapped(b.stone(flip(m))));
            assert(b.played(n).stone(flip(m)) == b.stone(flip(m)));
        }
    }
    lemma_same_board(x, y);
}

/// Every cell holds a stone or is empty: stones and empty cells add up to the board.
pub proof fn stones_and_empty_cells_add_up(b: Bitboard)
    requires
        b.wf(),
    ensures
        b.stone_count() + free_count(b) == 121,
{
    lemma_bits_where(|k: int| !has_bit(b.black, k) && !has_bit(b.white, k));
    lemma_ones_clear(b.black, 121, 127);
    assert forall|k: int| 121 <= k < 127 implies !#[trigger] has_bit(b.white, k) by {
        assert(!has_bit(b.black, k));
    }
    lemma_ones_clear(b.white, 121, 127);
    lemma_three_way(b.black, b.white, free_bits(b), 121);
}

proof fn lemma_three_way(x: u128, y: u128, z: u128, n: nat)
    requires
        forall|k: int| 0 <= k < n ==> !(#[trigger] has_bit(x, k) && has_bit(y, k)),
        forall|k: int|
            0 <= k < n ==> #[trigger] has_bit(z, k) == (!has_bit(x, k) && !has_bit(y, k)),
    ensures
        ones_below(x, n) + ones_below(y, n) + ones_below(z, n) == n,
    decreases n,
{
    if n > 0 {
        lemma_three_way(x, y, z, (n - 1) as nat);
        assert(!(has_bit(x, n - 1) && has_bit(y, n - 1)));
        assert(has_bit(z, n - 1) == (!has_bit(x, n - 1) && !has_bit(y, n - 1)));
    }
}

/// A rollout is decisive: where black does not connect, white's share of the cells does.
pub proof fn a_rollout_is_decisive(b: Bitboard, mask: u128)
    requires
        b.wf(),
    ensures
        left_right(rollout_black(b, mask)) != top_bottom(
            |p: (int, int)| inside(p) && !rollout_black(b, mask)(p),
        ),
        left_right(stones(b.black)) ==> left_right(rollout_black(b, mask)),
        top_bottom(stones(b.white)) ==> !left_right(rollout_black(b, mask)),
{
    let black = rollout_black(b, mask);
    let white = |p: (int, int)| inside(p) && !black(p);
    exactly_one_connects(black, white);
    assert forall|p: (int, int)| stones(b.black)(p) implies #[trigger] black(p) by {}
    edges_mono(stones(b.black), black);
    assert forall|p: (int, int)| stones(b.white)(p) implies #[trigger] white(p) by {
        assert(!(has_bit(b.black, pos(p)) && has_bit(b.white, pos(p))));
    }
    edges_mono(stones(b.white), white);
}

proof fn lemma_played_out(b: Bitboard, picks: Seq<usize>, n: int)
    requires
        b.wf(),
        picks_fit(b, picks),
        0 <= n <= picks.len(),
    ensures
        ({
            let r = played_out(b, picks.take(n));
            &&& r.wf()
            &&& free_count(r) == picks.len() - n
            &&& r.black_next() == b.black_next()
            &&& forall|k: int| 0 <= k < 128 && has_bit(b.black, k) ==> #[trigger] has_bit(r.black, k)
            &&& forall|k: int| 0 <= k < 128 && has_bit(b.white, k) ==> #[trigger] has_bit(r.white, k)
        }),
    decreases n,
{
    if n > 0 {
        lemma_played_out(b, picks, n - 1);
        assert(picks.take(n).drop_last() == picks.take(n - 1));
        let before = played_out(b, picks.take(n - 1));
        let black = b.black_next() == ((n - 1) as nat % 2 == 0);
        lemma_marked(before, black, picks[n - 1] as nat);
        let r = played_out(b, picks.take(n));
        assert(r == marked(before, black, picks[n - 1] as nat));
        assert forall|k: int| 0 <= k < 121 implies !(#[trigger] has_bit(r.black, k) && has_bit(
            r.white,
            k,
        )) by {
            assert(!(has_bit(before.black, k) && has_bit(before.white, k)));
            assert(has_bit(r.white, k) == has_bit(r.white, k));
        }
        assert forall|k: int| 121 <= k < 127 implies !#[trigger] has_bit(r.black, k) && !has_bit(
            r.white,
            k,
        ) by {
            assert(!has_bit(before.black, k));
            assert(!has_bit(before.white, k));
            assert(has_bit(r.white, k) == has_bit(r.white, k));
        }
        assert(has_bit(r.black, 127) == has_bit(before.black, 127));
        assert(has_bit(r.white, 127) == has_bit(before.white, 127));
    } else {
        assert(picks.take(0) == Seq::<usize>::empty());
    }
}

/// An exact rollout ends on a full board that keeps all stones and has one winner.
pub proof fn a_playout_fills_the_board(b: Bitboard, picks: Seq<usize>)
    requires
        b.wf(),
        picks_fit(b, picks),
    ensures
        ({
            let r = played_out(b, picks);
            &&& r.wf()
            &&& forall|n: int| 0 <= n < 121 ==> #[trigger] r.stone(n) is Some
            &&& forall|n: int| 0 <= n < 121 && b.stone(n) is Some ==> #[trigger] r.stone(n) == b.stone(n)
            &&& r.winner() == Some(left_right(stones(r.black)))
        }),
{
    let r = played_out(b, picks);
    assert(picks.take(picks.len() as int) == picks);
    lemma_played_out(b, picks, picks.len() as int);
    let free = free_bits(r);
    lemma_bits_where(|k: int| !has_bit(r.black, k) && !has_bit(r.white, k));
    assert forall|n: int| 0 <= n < 121 implies #[trigger] r.stone(n) is Some by {
        let k = 120 - n;
        if has_bit(free, k) {
            lemma_ones_bound(free, 0, k as nat);
            lemma_ones_bound(free, (k + 1) as nat, 121);
        }
    }
    assert forall|n: int| 0 <= n < 121 && b.stone(n) is Some implies #[trigger] r.stone(n)
        == b.stone(n) by {
        let k = 120 - n;
        assert(has_bit(b.black, k) ==> has_bit(r.black, k));
        assert(has_bit(b.white, k) ==> has_bit(r.white, k));
        assert(!(has_bit(r.black, k) && has_bit(r.white, k)));
    }
    a_full_board_is_decided(r);
}

/// Whether `next` is the board after a legal move on `board`.
pub open spec fn is_reply(board: Bitboard, next: Bitboard) -> bool {
    exists|n: int| 0 <= n < 121 && board.stone(n) is None && next == #[trigger] board.played(n)
}

/// Whether `n` legal moves lead from the empty board to `board`, none of them made once the game
/// was over.
pub open spec fn reachable(board: Bitboard, n: nat) -> bool
    decreases n,
{
    if n == 0 {
        board == start_board()
    } else {
        exists|before: Bitboard|
            {
                &&& reachable(before, (n - 1) as nat)
                &&& before.winner() is None
                &&& #[trigger] is_reply(before, board)
            }
    }
}

/// Every board that a game can reach is well formed, holds as many stones as moves were made, and
/// black is to move after an even number of them.
pub proof fn a_game_keeps_count(board: Bitboard, n: nat)
    requires
        reachable(board, n),
    ensures
        board.wf(),
        board.stone_count() == n,
        board.black_next() == (n % 2 == 0),
        n <= 121,
    decreases n,
{
    if n == 0 {
        lemma_start_board();
    } else {
        let before = choose|before: Bitboard|
            {
                &&& reachable(before, (n - 1) as nat)
                &&& before.winner() is None
                &&& #[trigger] is_reply(before, board)
            };
        a_game_keeps_count(before, (n - 1) as nat);
        let m = choose|m: int|
            0 <= m < 121 && before.stone(m) is None && board == #[trigger] before.played(m);
        a_move_places_one_stone(before, m);
    }
    stones_and_empty_cells_add_up(board);
}

/// A move on a well formed board.
pub proof fn lemma_reply(board: Bitboard, next: Bitboard)
    requires
        board.wf(),
        is_reply(board, next),
    ensures
        next.wf(),
        next.stone_count() == board.stone_count() + 1,
        next.black_next() == !board.black_next(),
        next.stone_count() <= 121,
{
    let m = choose|m: int|
        0 <= m < 121 && board.stone(m) is None && next == #[trigger] board.played(m);
    a_move_places_one_stone(board, m);
    stones_and_empty_cells_add_up(next);
}

/// In a rollout every stone stays, and each empty cell goes to black exactly where it was drawn.
pub proof fn a_rollout_deals_out_the_empty_cells(b: Bitboard, mask: u128, row: int, col: int)
    requires
        b.wf(),
        0 <= row < 11,
        0 <= col < 11,
    ensures
        match b.stone(11 * row + col) {
            Some(true) => rollout_black(b, mask)((row, col)),
            Some(false) => !rollout_black(b, mask)((row, col)),
            None => rollout_black(b, mask)((row, col)) == has_bit(mask, 120 - 11 * row - col),
        },
{
    let k = pos((row, col));
    assert(!(has_bit(b.black, k) && has_bit(b.white, k)));
}

/// In an exact rollout the players fill the cells that are left in turns, the player to move first: of
/// an odd number of cells that player gets one more.
pub proof fn a_playout_goes_in_turns(b: Bitboard, picks: Seq<usize>)
    requires
        picks_fit(b, picks),
    ensures
        ({
            let r = played_out(b, picks);
            let black = ones_below(r.black, 121) - ones_below(b.black, 121);
            let white = ones_below(r.white, 121) - ones_below(b.white, 121);
            &&& black + white == picks.len()
            &&& b.black_next() ==> white <= black <= white + 1
            &&& !b.black_next() ==> black <= white <= black + 1
        }),
{
    assert(picks.take(picks.len() as int) =~= picks);
    lemma_turns(b, picks, picks.len() as int);
}

proof fn lemma_turns(b: Bitboard, picks: Seq<usize>, n: int)
    requires
        picks_fit(b, picks),
        0 <= n <= picks.len(),
    ensures
        ({
            let r = played_out(b, picks.take(n));
            let first = (n + 1) / 2;
            let second = n / 2;
            &&& free_count(r) == picks.len() - n
            &&& ones_below(r.black, 121) == ones_below(b.black, 121) + if b.black_next() {
                first
            } else {
                second
            }
            &&& ones_below(r.white, 121) == ones_below(b.white, 121) + if b.black_next() {
                second
            } else {
                first
            }
        }),
    decreases n,
{
    if n == 0 {
        assert(picks.take(0) =~= Seq::<usize>::empty());
    } else {
        lemma_turns(b, picks, n - 1);
        assert(picks.take(n).drop_last() =~= picks.take(n - 1));
        let before = played_out(b, picks.take(n - 1));
        let black = b.black_next() == ((n - 1) as nat % 2 == 0);
        let m = picks[n - 1] as nat;
        lemma_marked(before, black, m);
        let r = marked(before, black, m);
        let k = crate::bits::nth_bit(free_bits(before), m);
        assert(r == played_out(b, picks.take(n)));
        if black {
            assert(has_bit(r.black, k));
            lemma_ones_set(before.black, r.black, k, 121);
            lemma_ones_same(before.white, r.white, 121);
        } else {
            assert(has_bit(r.white, k));
            lemma_ones_set(before.white, r.white, k, 121);
            lemma_ones_same(before.black, r.black, 121);
        }
    }
}

} // verus!
