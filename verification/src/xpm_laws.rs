//! What holds of every rendered board.

use vstd::prelude::*;
use crate::bb::Bitboard;
use crate::xpm::{
    board_pixel, hex_fill, hex_paint, hex_x, hex_y, over, render_board, XpmImage,
};

verus! {

/// How much wider row `v` of a hex is than its top row, on either side.
pub open spec fn bulge(scale: int, v: int) -> int {
    if v < 2 * scale {
        v / 2
    } else {
        (4 * scale - 2 - v) / 2
    }
}

/// Whether column `u` and row `v` of its bounding box belong to a hex.
pub open spec fn in_hex(scale: int, u: int, v: int) -> bool {
    &&& 0 <= v <= 4 * scale - 2
    &&& scale - 1 - bulge(scale, v) <= u <= 3 * scale + bulge(scale, v)
}

/// Whether column `u` and row `v` of its bounding box lie on the outline of a hex.
pub open spec fn on_outline(scale: int, u: int, v: int) -> bool {
    &&& in_hex(scale, u, v)
    &&& v == 0 || v == 4 * scale - 2 || u == scale - 1 - bulge(scale, v) || u == 3 * scale + bulge(
        scale,
        v,
    )
}

/// Where the bounding box of the hex of a cell starts: rows run down to the right, columns up to the
/// right.
pub open spec fn place(scale: int, row: int, col: int) -> (int, int) {
    (
        2 * scale + (row + col) * (3 * scale + 3),
        2 * scale + (10 + row - col) * (2 * scale),
    )
}

/// The color of a pixel.
pub open spec fn color_at(im: XpmImage, x: int, y: int) -> (u8, u8, u8) {
    im.colors()[im.pixel(x, y) as int]
}

/// The inside of the hex of each cell shows the stone in that row and column: it is red where there
/// is one of black, blue where there is one of white, and dark where there is none. All around it
/// is the grey outline, in all the rows and columns of the image that belong to that hex.
pub proof fn each_stone_is_drawn_on_its_cell(
    board: Bitboard,
    scale: usize,
    im: XpmImage,
    row: int,
    col: int,
    u: int,
    v: int,
)
    requires
        1 <= scale,
        (68 * scale + 60) * (48 * scale - 1) <= usize::MAX,
        call_ensures(render_board, (board, scale), im),
        0 <= row < 11,
        0 <= col < 11,
        in_hex(scale as int, u, v),
    ensures
        ({
            let (x0, y0) = place(scale as int, row, col);
            let color = color_at(im, x0 + u, y0 + v);
            &&& 0 <= x0 + u < im.width()
            &&& 0 <= y0 + v < im.height()
            &&& on_outline(scale as int, u, v) ==> color == (64u8, 64u8, 64u8)
            &&& !on_outline(scale as int, u, v) ==> color == match board.stone(11 * row + col) {
                Some(true) => (237u8, 0u8, 76u8),
                Some(false) => (0u8, 153u8, 234u8),
                None => (28u8, 28u8, 28u8),
            }
        }),
{
    let s = scale as int;
    let n = 11 * row + col;
    let (x0, y0) = place(s, row, col);
    lemma_cell(row, col);
    lemma_span(s, row, col);
    assert(hex_x(s, n) == x0 && hex_y(s, n) == y0);
    lemma_paint(s, u, v, hex_fill(board, n));
    lemma_only_hex(board, s, 121, n, u, v);
}

/// What belongs to no hex is dark.
pub proof fn between_the_hexes_it_is_dark(
    board: Bitboard,
    scale: usize,
    im: XpmImage,
    x: int,
    y: int,
)
    requires
        1 <= scale,
        (68 * scale + 60) * (48 * scale - 1) <= usize::MAX,
        call_ensures(render_board, (board, scale), im),
        0 <= x < im.width(),
        0 <= y < im.height(),
        forall|row: int, col: int|
            0 <= row < 11 && 0 <= col < 11 ==> !in_hex(
                scale as int,
                x - (#[trigger] place(scale as int, row, col)).0,
                y - place(scale as int, row, col).1,
            ),
    ensures
        color_at(im, x, y) == (28u8, 28u8, 28u8),
{
    lemma_no_hex(board, scale as int, 121, x, y);
}

proof fn lemma_cell(row: int, col: int)
    requires
        0 <= row < 11,
        0 <= col < 11,
    ensures
        (11 * row + col) / 11 == row,
        (11 * row + col) % 11 == col,
{
}

/// The hexes fit in the image.
proof fn lemma_span(scale: int, row: int, col: int)
    requires
        1 <= scale,
        0 <= row < 11,
        0 <= col < 11,
    ensures
        0 <= (row + col) * (3 * scale + 3) <= 20 * (3 * scale + 3),
        0 <= (10 + row - col) * (2 * scale) <= 20 * (2 * scale),
{
    let (a, b) = (row + col, 10 + row - col);
    assert(0 <= a * (3 * scale + 3) <= 20 * (3 * scale + 3)) by (nonlinear_arith)
        requires
            0 <= a <= 20,
            1 <= scale,
    ;
    assert(0 <= b * (2 * scale) <= 20 * (2 * scale)) by (nonlinear_arith)
        requires
            0 <= b <= 20,
            1 <= scale,
    ;
}

/// A hex paints its own pixels and no others.
proof fn lemma_paint(scale: int, u: int, v: int, fill: Option<u8>)
    requires
        1 <= scale,
    ensures
        !in_hex(scale, u, v) ==> hex_paint(scale, u, v, fill, Some(1u8)) is None,
        on_outline(scale, u, v) ==> hex_paint(scale, u, v, fill, Some(1u8)) == Some(1u8),
        in_hex(scale, u, v) && !on_outline(scale, u, v) ==> hex_paint(
            scale,
            u,
            v,
            fill,
            Some(1u8),
        ) == fill,
{
}

/// Two hexes have no pixel in common.
proof fn lemma_hexes_apart(scale: int, n: int, m: int, u: int, v: int)
    requires
        1 <= scale,
        0 <= n < 121,
        0 <= m < 121,
        n != m,
        in_hex(scale, u, v),
    ensures
        !in_hex(
            scale,
            hex_x(scale, n) + u - hex_x(scale, m),
            hex_y(scale, n) + v - hex_y(scale, m),
        ),
{
    let a = (n / 11 + n % 11) - (m / 11 + m % 11);
    let b = (n / 11 - n % 11) - (m / 11 - m % 11);
    let dx = 3 * scale + 3;
    let dy = 2 * scale;
    assert(hex_x(scale, n) - hex_x(scale, m) == a * dx) by (nonlinear_arith)
        requires
            hex_x(scale, n) == 2 * scale + (n / 11 + n % 11) * dx,
            hex_x(scale, m) == 2 * scale + (m / 11 + m % 11) * dx,
            a == (n / 11 + n % 11) - (m / 11 + m % 11),
    ;
    assert(hex_y(scale, n) - hex_y(scale, m) == b * dy) by (nonlinear_arith)
        requires
            hex_y(scale, n) == 2 * scale + (10 + n / 11 - n % 11) * dy,
            hex_y(scale, m) == 2 * scale + (10 + m / 11 - m % 11) * dy,
            b == (n / 11 - n % 11) - (m / 11 - m % 11),
    ;
    assert(a != 0 || b != 0);
    assert((a - b) % 2 == 0) by {
        assert(a - b == 2 * (n % 11 - m % 11));
    }
    if a >= 2 {
        assert(a * dx >= 2 * dx) by (nonlinear_arith)
            requires
                a >= 2,
                dx >= 0,
        ;
    } else if a <= -2 {
        assert(a * dx <= -2 * dx) by (nonlinear_arith)
            requires
                a <= -2,
                dx >= 0,
        ;
    } else {
        if b >= 2 {
            assert(b * dy >= 2 * dy) by (nonlinear_arith)
                requires
                    b >= 2,
                    dy >= 0,
            ;
        } else if b <= -2 {
            assert(b * dy <= -2 * dy) by (nonlinear_arith)
                requires
                    b <= -2,
                    dy >= 0,
            ;
        } else {
            assert(a == 1 || a == -1);
            assert(b == 1 || b == -1);
            assert(a * dx == dx || a * dx == -dx) by (nonlinear_arith)
                requires
                    a == 1 || a == -1,
            ;
            assert(b * dy == dy || b * dy == -dy) by (nonlinear_arith)
                requires
                    b == 1 || b == -1,
            ;
        }
    }
}

/// A pixel of a hex is painted by that hex alone.
proof fn lemma_only_hex(board: Bitboard, scale: int, k: nat, n: int, u: int, v: int)
    requires
        1 <= scale,
        0 <= n < 121,
        k <= 121,
        in_hex(scale, u, v),
    ensures
        board_pixel(board, scale, k, hex_x(scale, n) + u, hex_y(scale, n) + v) == if n < k {
            over(hex_paint(scale, u, v, hex_fill(board, n), Some(1u8)), 0)
        } else {
            0
        },
    decreases k,
{
    if k > 0 {
        lemma_only_hex(board, scale, (k - 1) as nat, n, u, v);
        let m = k - 1;
        if m != n {
            let x = hex_x(scale, n) + u - hex_x(scale, m);
            let y = hex_y(scale, n) + v - hex_y(scale, m);
            lemma_hexes_apart(scale, n, m, u, v);
            lemma_paint(scale, x, y, hex_fill(board, m));
        }
    }
}

/// A pixel of no hex is not painted.
proof fn lemma_no_hex(board: Bitboard, scale: int, k: nat, x: int, y: int)
    requires
        1 <= scale,
        k <= 121,
        forall|row: int, col: int|
            0 <= row < 11 && 0 <= col < 11 ==> !in_hex(
                scale,
                x - (#[trigger] place(scale, row, col)).0,
                y - place(scale, row, col).1,
            ),
    ensures
        board_pixel(board, scale, k, x, y) == 0,
    decreases k,
{
    if k > 0 {
        lemma_no_hex(board, scale, (k - 1) as nat, x, y);
        let m = k - 1;
        let (row, col) = (m / 11, m % 11);
        assert(place(scale, row, col) == (hex_x(scale, m), hex_y(scale, m)));
        lemma_paint(scale, x - hex_x(scale, m), y - hex_y(scale, m), hex_fill(board, m));
    }
}

} // verus!
