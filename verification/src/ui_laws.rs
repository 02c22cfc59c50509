//! What holds of every board that is drawn for a player.

use vstd::prelude::*;
use crate::bb::Bitboard;
use crate::ui::{
    cells_drawn, cursor_drawn, ends_drawn, sides_drawn, Drawing, Ink, MainState, Shape,
};

verus! {

/// Whether something is drawn.
pub open spec fn draws(all: Seq<Drawing>, drawing: Drawing) -> bool {
    exists|k: int| 0 <= k < all.len() && #[trigger] all[k] == drawing
}

/// The stone that is drawn on a cell.
pub open spec fn piece(row: int, col: int, ink: Ink) -> Drawing {
    Drawing { shape: Shape::Piece, row: row as usize, col: col as usize, ink, sixths: 0 }
}

/// A stone is drawn in its row and column, in the color of its player, and nowhere else.
pub proof fn each_stone_is_drawn_in_its_color(
    state: &MainState,
    all: Vec<Drawing>,
    row: int,
    col: int,
)
    requires
        call_ensures(MainState::draw, (state,), all),
        0 <= row < 11,
        0 <= col < 11,
    ensures
        draws(all@, piece(row, col, Ink::Sente)) <==> state.board.stone(11 * row + col) == Some(
            true,
        ),
        draws(all@, piece(row, col, Ink::Gote)) <==> state.board.stone(11 * row + col) == Some(
            false,
        ),
        !draws(all@, piece(row, col, Ink::Grid)),
{
    let cells = cells_drawn(state.board, 121);
    let (sides, ends) = (sides_drawn(11), ends_drawn(11));
    let cursor = cursor_drawn(state.board, state.cursor);
    assert(all@ == cells + sides + ends + cursor);
    lemma_edges(11);
    assert forall|ink: Ink| draws(all@, #[trigger] piece(row, col, ink)) <==> draws(
        cells,
        piece(row, col, ink),
    ) by {
        let d = piece(row, col, ink);
        if draws(all@, d) {
            let k = choose|k: int| 0 <= k < all@.len() && #[trigger] all@[k] == d;
            if k >= cells.len() {
                if k < cells.len() + sides.len() {
                    assert(all@[k] == sides[k - cells.len()]);
                } else if k < cells.len() + sides.len() + ends.len() {
                    assert(all@[k] == ends[k - cells.len() - sides.len()]);
                } else {
                    assert(all@[k] == cursor[k - cells.len() - sides.len() - ends.len()]);
                }
                assert(all@[k].shape != Shape::Piece);
            }
            assert(all@[k] == cells[k]);
        }
        if draws(cells, d) {
            let k = choose|k: int| 0 <= k < cells.len() && #[trigger] cells[k] == d;
            assert(all@[k] == d);
        }
    }
    lemma_pieces(state.board, 121, row, col, Ink::Sente);
    lemma_pieces(state.board, 121, row, col, Ink::Gote);
    lemma_pieces(state.board, 121, row, col, Ink::Grid);
}

/// What stands for a player.
spec fn ink_means(ink: Ink, stone: Option<bool>) -> bool {
    match ink {
        Ink::Sente => stone == Some(true),
        Ink::Gote => stone == Some(false),
        Ink::Grid => false,
    }
}

proof fn lemma_pieces(board: Bitboard, n: nat, row: int, col: int, ink: Ink)
    requires
        n <= 121,
        0 <= row < 11,
        0 <= col < 11,
    ensures
        draws(cells_drawn(board, n), piece(row, col, ink)) <==> 11 * row + col < n && ink_means(
            ink,
            board.stone(11 * row + col),
        ),
    decreases n,
{
    let d = piece(row, col, ink);
    if n > 0 {
        lemma_pieces(board, (n - 1) as nat, row, col, ink);
        let less = cells_drawn(board, (n - 1) as nat);
        let all = cells_drawn(board, n);
        let m = n - 1;
        let (r, c) = (m / 11, m % 11);
        let outline = Drawing {
            shape: Shape::Cell,
            row: r as usize,
            col: c as usize,
            ink: Ink::Grid,
            sixths: 0,
        };
        let stone = board.stone(m);
        if draws(less, d) {
            let k = choose|k: int| 0 <= k < less.len() && #[trigger] less[k] == d;
            assert(all[k] == d);
        }
        if 11 * row + col == m && ink_means(ink, stone) {
            assert(r == row && c == col);
            assert(all[less.len() as int] == d);
        }
        if draws(all, d) {
            let k = choose|k: int| 0 <= k < all.len() && #[trigger] all[k] == d;
            if k < less.len() {
                assert(less[k] == d);
            } else {
                assert(all[k] != outline);
                assert(k == less.len());
                assert(stone is Some);
                assert(d.row == r && d.col == c);
                assert(m == 11 * r + c);
            }
        }
    } else {
        assert(cells_drawn(board, 0).len() == 0);
    }
}

/// Nothing along the edges is a stone: the sides are sente's, the ends are gote's.
proof fn lemma_edges(n: nat)
    requires
        n <= 11,
    ensures
        sides_drawn(n).len() == 2 * n,
        ends_drawn(n).len() == 2 * n,
        forall|k: int|
            0 <= k < 2 * n ==> (#[trigger] sides_drawn(n)[k]).shape == Shape::Edge && sides_drawn(
                n,
            )[k].ink == Ink::Sente && sides_drawn(n)[k].row == k / 2 && sides_drawn(n)[k].col
                == 10 * (k % 2),
        forall|k: int|
            0 <= k < 2 * n ==> (#[trigger] ends_drawn(n)[k]).shape == Shape::Edge && ends_drawn(
                n,
            )[k].ink == Ink::Gote && ends_drawn(n)[k].col == k / 2 && ends_drawn(n)[k].row == 10
                * (k % 2),
    decreases n,
{
    if n > 0 {
        lemma_edges((n - 1) as nat);
        let (a, b) = (sides_drawn((n - 1) as nat), ends_drawn((n - 1) as nat));
        assert forall|k: int| 0 <= k < 2 * n implies (#[trigger] sides_drawn(n)[k]).shape
            == Shape::Edge && sides_drawn(n)[k].ink == Ink::Sente && sides_drawn(n)[k].row == k / 2
            && sides_drawn(n)[k].col == 10 * (k % 2) by {
            if k < 2 * (n - 1) {
                assert(sides_drawn(n)[k] == a[k]);
            }
        }
        assert forall|k: int| 0 <= k < 2 * n implies (#[trigger] ends_drawn(n)[k]).shape
            == Shape::Edge && ends_drawn(n)[k].ink == Ink::Gote && ends_drawn(n)[k].col == k / 2
            && ends_drawn(n)[k].row == 10 * (k % 2) by {
            if k < 2 * (n - 1) {
                assert(ends_drawn(n)[k] == b[k]);
            }
        }
    }
}

/// The cell under the cursor is outlined last, over everything else, in the color of the player whose
/// turn it is.
pub proof fn the_cursor_has_the_color_of_the_player_to_move(
    state: &MainState,
    all: Vec<Drawing>,
    row: usize,
    col: usize,
)
    requires
        call_ensures(MainState::draw, (state,), all),
        state.cursor == Some((row, col)),
    ensures
        all@.len() > 0,
        all@.last().shape == Shape::Cell,
        all@.last().row == row,
        all@.last().col == col,
        state.board.black_next() ==> all@.last().ink == Ink::Sente,
        !state.board.black_next() ==> all@.last().ink == Ink::Gote,
{
    let cursor = cursor_drawn(state.board, state.cursor);
    assert(cursor.len() == 1);
    assert(all@.last() == cursor[0]);
}

/// The left and right edges of the board are drawn in sente's color, the upper and lower ones in
/// gote's, at each cell that lies on them.
pub proof fn each_player_sees_their_edges(state: &MainState, all: Vec<Drawing>, i: int)
    requires
        call_ensures(MainState::draw, (state,), all),
        0 <= i < 11,
    ensures
        draws(all@, edge(i, 0, Ink::Sente, -1)),
        draws(all@, edge(i, 10, Ink::Sente, 2)),
        draws(all@, edge(0, i, Ink::Gote, 1)),
        draws(all@, edge(10, i, Ink::Gote, -2)),
{
    let cells = cells_drawn(state.board, 121);
    let (sides, ends) = (sides_drawn(11), ends_drawn(11));
    assert(all@ == cells + sides + ends + cursor_drawn(state.board, state.cursor));
    lemma_edges(11);
    lemma_edge_at(11, i);
    let start = cells.len() as int;
    assert(all@[start + 2 * i] == sides[2 * i]);
    assert(all@[start + 2 * i + 1] == sides[2 * i + 1]);
    assert(all@[start + 22 + 2 * i] == ends[2 * i]);
    assert(all@[start + 22 + 2 * i + 1] == ends[2 * i + 1]);
}

/// A part of the edge of the board, turned by so many sixths.
pub open spec fn edge(row: int, col: int, ink: Ink, sixths: int) -> Drawing {
    Drawing {
        shape: Shape::Edge,
        row: row as usize,
        col: col as usize,
        ink,
        sixths: sixths as i8,
    }
}

proof fn lemma_edge_at(n: nat, i: int)
    requires
        n <= 11,
        0 <= i < n,
    ensures
        sides_drawn(n).len() == 2 * n,
        ends_drawn(n).len() == 2 * n,
        sides_drawn(n)[2 * i] == edge(i, 0, Ink::Sente, -1),
        sides_drawn(n)[2 * i + 1] == edge(i, 10, Ink::Sente, 2),
        ends_drawn(n)[2 * i] == edge(0, i, Ink::Gote, 1),
        ends_drawn(n)[2 * i + 1] == edge(10, i, Ink::Gote, -2),
    decreases n,
{
    lemma_edges((n - 1) as nat);
    let (a, b) = (sides_drawn((n - 1) as nat), ends_drawn((n - 1) as nat));
    if i < n - 1 {
        lemma_edge_at((n - 1) as nat, i);
        assert(sides_drawn(n)[2 * i] == a[2 * i]);
        assert(sides_drawn(n)[2 * i + 1] == a[2 * i + 1]);
        assert(ends_drawn(n)[2 * i] == b[2 * i]);
        assert(ends_drawn(n)[2 * i + 1] == b[2 * i + 1]);
    }
}

} // verus!
