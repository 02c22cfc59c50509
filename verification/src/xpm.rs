//! Boards as XPM images.

use vstd::prelude::*;
use vstd::string::*;
use crate::bb::Bitboard;
use crate::text::{
    decimal, hexadecimal, hexadecimal_text, push_decimal, push_right, right_aligned,
};

verus! {

/// An image with a palette of up to 16 colors.
pub struct XpmImage {
    palette: Vec<(u8, u8, u8)>,
    rows: usize,
    cols: usize,
    data: Vec<u8>,
}

/// The character that stands for a color.
pub open spec fn color_char(i: int) -> char {
    (97 + i) as char
}

/// Two hexadecimal digits.
pub open spec fn byte_text(x: u8) -> Seq<char> {
    right_aligned(hexadecimal(x as nat), '0', 2)
}

/// The line that defines a color.
pub open spec fn color_line(i: int, color: (u8, u8, u8)) -> Seq<char> {
    "\""@ + seq![color_char(i)] + " c #"@ + byte_text(color.0) + byte_text(color.1) + byte_text(
        color.2,
    ) + "\",\n"@
}

/// The lines that define the first `n` colors.
pub open spec fn palette_text(palette: Seq<(u8, u8, u8)>, n: nat) -> Seq<char>
    decreases n,
{
    if n == 0 {
        Seq::empty()
    } else {
        palette_text(palette, (n - 1) as nat) + color_line(n - 1, palette[n - 1])
    }
}

impl XpmImage {
    /// Whether the pixels are all there and have colors of the palette.
    pub closed spec fn wf(self) -> bool {
        &&& 1 <= self.palette@.len() <= 16
        &&& self.data@.len() == self.rows * self.cols
        &&& forall|i: int| 0 <= i < self.data@.len() ==> #[trigger] self.data@[i] < self.palette@.len()
    }

    /// The colors.
    pub closed spec fn colors(self) -> Seq<(u8, u8, u8)> {
        self.palette@
    }

    /// How many pixels a row has.
    pub closed spec fn width(self) -> nat {
        self.cols as nat
    }

    /// How many rows there are.
    pub closed spec fn height(self) -> nat {
        self.rows as nat
    }

    /// The color of a pixel.
    pub closed spec fn pixel(self, x: int, y: int) -> u8 {
        self.data@[y * self.cols + x]
    }

    /// The first `n` pixels of row `y`.
    pub open spec fn pixels_text(self, y: int, n: nat) -> Seq<char>
        decreases n,
    {
        if n == 0 {
            Seq::empty()
        } else {
            self.pixels_text(y, (n - 1) as nat).push(color_char(self.pixel(n - 1, y) as int))
        }
    }

    /// The first `n` rows.
    pub open spec fn rows_text(self, n: nat) -> Seq<char>
        decreases n,
    {
        if n == 0 {
            Seq::empty()
        } else {
            self.rows_text((n - 1) as nat) + "\""@ + self.pixels_text(n - 1, self.width()) + "\",\n"@
        }
    }

    /// The file that holds the image.
    pub open spec fn file_text(self) -> Seq<char> {
        "/* XPM */\n"@ + "static char * IMAGE[] = {\n"@ + "\""@ + decimal(self.width()) + " "@
            + decimal(self.height()) + " "@ + decimal(self.colors().len()) + " 1\",\n"@
            + palette_text(self.colors(), self.colors().len()) + self.rows_text(self.height())
            + "};\n"@
    }

    /// An image in the first color of the palette.
    pub fn new(width: usize, height: usize, palette: Vec<(u8, u8, u8)>) -> (im: XpmImage)
        requires
            1 <= palette@.len() <= 16,
            width * height <= usize::MAX,
        ensures
            im.wf(),
            im.width() == width,
            im.height() == height,
            im.colors() == palette@,
            forall|x: int, y: int|
                0 <= x < width && 0 <= y < height ==> #[trigger] im.pixel(x, y) == 0,
    {
        let im = XpmImage { palette, rows: height, cols: width, data: vec![0; width * height] };
        proof {
            assert(width * height == height * width) by (nonlinear_arith);
            assert forall|x: int, y: int| 0 <= x < width && 0 <= y < height implies #[trigger] im.pixel(
                x,
                y,
            ) == 0 by {
                lemma_inside(x, y, width as int, height as int);
            }
        }
        im
    }

    /// Give a pixel a color; one outside the image is passed over.
    pub fn put(&mut self, x: usize, y: usize, color: u8)
        requires
            old(self).wf(),
            color < old(self).colors().len(),
        ensures
            final(self).wf(),
            final(self).width() == old(self).width(),
            final(self).height() == old(self).height(),
            final(self).colors() == old(self).colors(),
            forall|px: int, py: int|
                0 <= px < old(self).width() && 0 <= py < old(self).height()
                    ==> #[trigger] final(self).pixel(px, py) == (if px == x && py == y {
                    color
                } else {
                    old(self).pixel(px, py)
                }),
    {
        if x < self.cols && y < self.rows {
            proof {
                lemma_inside(x as int, y as int, self.cols as int, self.rows as int);
                assert(y * self.cols + x < self.data.len());
            }
            let i: usize = y * self.cols + x;
            self.data[i] = color;
            proof {
                assert forall|px: int, py: int|
                    0 <= px < self.cols && 0 <= py < self.rows implies #[trigger] self.pixel(px, py)
                    == (if px == x && py == y {
                    color
                } else {
                    old(self).pixel(px, py)
                }) by {
                    lemma_inside(px, py, self.cols as int, self.rows as int);
                    if py * self.cols + px == y * self.cols + x {
                        lemma_apart(px, py, x as int, y as int, self.cols as int);
                    }
                }
            }
        }
    }

    /// The file that holds the image.
    pub fn text(&self) -> (text: String)
        requires
            self.wf(),
        ensures
            text@ == self.file_text(),
    {
        let mut out = String::new();
        out.append("/* XPM */\n");
        out.append("static char * IMAGE[] = {\n");
        out.append("\"");
        push_decimal(&mut out, self.cols as u64);
        out.append(" ");
        push_decimal(&mut out, self.rows as u64);
        out.append(" ");
        push_decimal(&mut out, self.palette.len() as u64);
        out.append(" 1\",\n");
        let ghost head = out@;
        let mut i: usize = 0;
        while i < self.palette.len()
            invariant
                self.wf(),
                i <= self.palette@.len(),
                out@ == head + palette_text(self.palette@, i as nat),
            decreases self.palette@.len() - i,
        {
            push_color(&mut out, i, self.palette[i]);
            assert(out@ =~= head + palette_text(self.palette@, (i + 1) as nat));
            i = i + 1;
        }
        let ghost above = out@;
        let mut y: usize = 0;
        while y < self.rows
            invariant
                self.wf(),
                y <= self.rows,
                out@ == above + self.rows_text(y as nat),
            decreases self.rows - y,
        {
            out.append("\"");
            let ghost before = out@;
            let mut x: usize = 0;
            while x < self.cols
                invariant
                    self.wf(),
                    y < self.rows,
                    x <= self.cols,
                    out@ == before + self.pixels_text(y as int, x as nat),
                decreases self.cols - x,
            {
                proof {
                    lemma_inside(x as int, y as int, self.cols as int, self.rows as int);
                    assert(y * self.cols + x < self.data.len());
                }
                let i: usize = y * self.cols + x;
                assert(self.data@[i as int] < 16);
                out.push((97 + self.data[i]) as char);
                assert(out@ =~= before + self.pixels_text(y as int, (x + 1) as nat));
                x = x + 1;
            }
            out.append("\",\n");
            assert(out@ =~= above + self.rows_text((y + 1) as nat));
            y = y + 1;
        }
        out.append("};\n");
        assert(out@ =~= self.file_text());
        out
    }
}

/// A pixel of the image has its place in the data.
proof fn lemma_inside(x: int, y: int, width: int, height: int)
    requires
        0 <= x < width,
        0 <= y < height,
    ensures
        0 <= y * width,
        0 <= y * width + x < height * width,
{
    assert(0 <= y * width) by (nonlinear_arith)
        requires
            0 <= y,
            0 <= width,
    ;
    assert(y * width + x < height * width) by (nonlinear_arith)
        requires
            0 <= x < width,
            0 <= y < height,
    ;
}

/// Two pixels have different places.
proof fn lemma_apart(x: int, y: int, x2: int, y2: int, width: int)
    requires
        0 <= x < width,
        0 <= x2 < width,
        y * width + x == y2 * width + x2,
    ensures
        x == x2,
        y == y2,
{
    assert(y == y2) by (nonlinear_arith)
        requires
            0 <= x < width,
            0 <= x2 < width,
            y * width + x == y2 * width + x2,
    ;
}

/// Append the line that defines a color.
fn push_color(out: &mut String, i: usize, color: (u8, u8, u8))
    requires
        i < 16,
    ensures
        final(out)@ == old(out)@ + color_line(i as int, color),
{
    out.append("\"");
    out.push((97 + i as u8) as char);
    out.append(" c #");
    push_byte(out, color.0);
    push_byte(out, color.1);
    push_byte(out, color.2);
    out.append("\",\n");
    assert(out@ =~= old(out)@ + color_line(i as int, color));
}

/// Append two hexadecimal digits.
fn push_byte(out: &mut String, x: u8)
    ensures
        final(out)@ == old(out)@ + byte_text(x),
{
    let digits = hexadecimal_text(x as u64);
    push_right(out, digits.as_str(), '0', 2);
}

// The top half of a hex of scale 3 consists of two parts of 3x6 pixels and one of
// 6x6, side by side. The outline is S, the inside is F:
//
//    +-----+-----------+-----+
//    |. . S|S S S S S S|S . .|
//    |. . S|F F F F F F|S . .|
//    |. S F|F F F F F F|F S .|
//    |. S F|F F F F F F|F S .|
//    |S F F|F F F F F F|F F S|
//    |S F F|F F F F F F|F F S|
//    +-----+-----------+-----+
//
// The bottom half is the same, flipped vertically. The two halves overlap in a
// single row, so that a hex of scale s has 4s columns and 4s-1 rows.
//
// Hexes above each other are 4s apart. Those in adjacent columns are offset by
// 2s, and the columns are 3s+3 apart.
const C_DARK_GREY: u8 = 1;

const C_RED: u8 = 2;

const C_BLUE: u8 = 3;

/// The colors of rendered boards.
pub open spec fn board_palette() -> Seq<(u8, u8, u8)> {
    seq![(28u8, 28u8, 28u8), (64u8, 64u8, 64u8), (237u8, 0u8, 76u8), (0u8, 153u8, 234u8)]
}

/// How far row `r` of a hex is from the nearer of its flat sides.
pub open spec fn hex_inset(scale: int, r: int) -> int {
    if r < 2 * scale {
        r
    } else {
        4 * scale - 2 - r
    }
}

/// What a hex paints at column `c` and row `r` of its bounding box.
pub open spec fn hex_paint(
    scale: int,
    c: int,
    r: int,
    fill: Option<u8>,
    stroke: Option<u8>,
) -> Option<u8> {
    let widened = hex_inset(scale, r) / 2;
    let first = scale - 1 - widened;
    let last = 3 * scale + widened;
    if !(0 <= r < 4 * scale - 1 && first <= c <= last) {
        None
    } else if hex_inset(scale, r) == 0 || c == first || c == last {
        if stroke is Some {
            stroke
        } else {
            fill
        }
    } else {
        fill
    }
}

/// The color of a pixel over which `paint` has been laid.
pub open spec fn over(paint: Option<u8>, below: u8) -> u8 {
    match paint {
        Some(color) => color,
        None => below,
    }
}

/// The column at which the bounding box of the hex of cell `n` starts.
pub open spec fn hex_x(scale: int, n: int) -> int {
    2 * scale + (n / 11 + n % 11) * (3 * scale + 3)
}

/// The row at which the bounding box of the hex of cell `n` starts.
pub open spec fn hex_y(scale: int, n: int) -> int {
    2 * scale + (10 + n / 11 - n % 11) * (2 * scale)
}

/// What the hex of cell `n` is filled with.
pub open spec fn hex_fill(board: Bitboard, n: int) -> Option<u8> {
    match board.stone(n) {
        Some(true) => Some(2),
        Some(false) => Some(3),
        None => None,
    }
}

/// The color of a pixel after the hexes of the first `n` cells have been painted.
pub open spec fn board_pixel(board: Bitboard, scale: int, n: nat, x: int, y: int) -> u8
    decreases n,
{
    if n == 0 {
        0
    } else {
        let cell = n - 1;
        over(
            hex_paint(
                scale,
                x - hex_x(scale, cell),
                y - hex_y(scale, cell),
                hex_fill(board, cell),
                Some(1),
            ),
            board_pixel(board, scale, (n - 1) as nat, x, y),
        )
    }
}

/// Paint one row of a hex.
fn render_row(
    im: &mut XpmImage,
    scale: usize,
    x: usize,
    y: usize,
    r: usize,
    fill: Option<u8>,
    stroke: Option<u8>,
)
    requires
        old(im).wf(),
        1 <= scale,
        r < 4 * scale - 1,
        x + 4 * scale <= usize::MAX,
        y + 4 * scale <= usize::MAX,
        fill matches Some(color) ==> color < old(im).colors().len(),
        stroke matches Some(color) ==> color < old(im).colors().len(),
    ensures
        final(im).wf(),
        final(im).width() == old(im).width(),
        final(im).height() == old(im).height(),
        final(im).colors() == old(im).colors(),
        forall|px: int, py: int|
            0 <= px < old(im).width() && 0 <= py < old(im).height() ==> #[trigger] final(im).pixel(
                px,
                py,
            ) == (if py == y + r {
                over(
                    hex_paint(scale as int, px - x, r as int, fill, stroke),
                    old(im).pixel(px, py),
                )
            } else {
                old(im).pixel(px, py)
            }),
{
    let r0: usize = if r < 2 * scale {
        r
    } else {
        4 * scale - 2 - r
    };
    let widened: usize = r0 / 2;
    let c0: usize = scale - 1 - widened;
    let c1: usize = 3 * scale + widened;
    let outline = match stroke {
        Some(_) => stroke,
        None => fill,
    };
    let mut c: usize = c0;
    while c <= c1
        invariant
            1 <= scale,
            r < 4 * scale - 1,
            r0 == hex_inset(scale as int, r as int),
            r0 < 2 * scale,
            widened == r0 / 2,
            c0 == scale - 1 - widened,
            c1 == 3 * scale + widened,
            c0 <= c <= c1 + 1,
            x + 4 * scale <= usize::MAX,
            y + 4 * scale <= usize::MAX,
            im.wf(),
            im.width() == old(im).width(),
            im.height() == old(im).height(),
            im.colors() == old(im).colors(),
            outline == (if stroke is Some {
                stroke
            } else {
                fill
            }),
            fill matches Some(color) ==> color < im.colors().len(),
            stroke matches Some(color) ==> color < im.colors().len(),
            forall|px: int, py: int|
                0 <= px < im.width() && 0 <= py < im.height() ==> #[trigger] im.pixel(px, py) == (
                if py == y + r && px - x < c {
                    over(
                        hex_paint(scale as int, px - x, r as int, fill, stroke),
                        old(im).pixel(px, py),
                    )
                } else {
                    old(im).pixel(px, py)
                }),
        decreases c1 + 1 - c,
    {
        let color = if r0 == 0 || c == c0 || c == c1 {
            outline
        } else {
            fill
        };
        if let Some(color) = color {
            im.put(x + c, y + r, color);
        }
        c = c + 1;
    }
}

/// Render a hex at (x, y) where (x, y) is the top left of its bounding box.
pub fn render_hex(
    im: &mut XpmImage,
    scale: usize,
    x: usize,
    y: usize,
    fill: Option<u8>,
    stroke: Option<u8>,
)
    requires
        old(im).wf(),
        1 <= scale,
        x + 4 * scale <= usize::MAX,
        y + 4 * scale <= usize::MAX,
        fill matches Some(color) ==> color < old(im).colors().len(),
        stroke matches Some(color) ==> color < old(im).colors().len(),
    ensures
        final(im).wf(),
        final(im).width() == old(im).width(),
        final(im).height() == old(im).height(),
        final(im).colors() == old(im).colors(),
        forall|px: int, py: int|
            0 <= px < old(im).width() && 0 <= py < old(im).height() ==> #[trigger] final(im).pixel(
                px,
                py,
            ) == over(
                hex_paint(scale as int, px - x, py - y, fill, stroke),
                old(im).pixel(px, py),
            ),
{
    let mut r: usize = 0;
    while r < 4 * scale - 1
        invariant
            1 <= scale,
            r <= 4 * scale - 1,
            x + 4 * scale <= usize::MAX,
            y + 4 * scale <= usize::MAX,
            im.wf(),
            im.width() == old(im).width(),
            im.height() == old(im).height(),
            im.colors() == old(im).colors(),
            fill matches Some(color) ==> color < im.colors().len(),
            stroke matches Some(color) ==> color < im.colors().len(),
            forall|px: int, py: int|
                0 <= px < im.width() && 0 <= py < im.height() ==> #[trigger] im.pixel(px, py) == (
                if py - y < r {
                    over(
                        hex_paint(scale as int, px - x, py - y, fill, stroke),
                        old(im).pixel(px, py),
                    )
                } else {
                    old(im).pixel(px, py)
                }),
        decreases 4 * scale - 1 - r,
    {
        render_row(im, scale, x, y, r, fill, stroke);
        r = r + 1;
    }
}

/// A hex paints nothing outside its bounding box, which has 4s columns and 4s-1 rows.
pub proof fn a_hex_stays_in_its_box(
    scale: int,
    c: int,
    r: int,
    fill: Option<u8>,
    stroke: Option<u8>,
)
    requires
        1 <= scale,
    ensures
        hex_paint(scale, c, r, fill, stroke) is Some ==> 0 <= c < 4 * scale && 0 <= r < 4 * scale
            - 1,
{
}

/// The next row of the board is one column of hexes further to the right and lower by half, the
/// next column is one further to the right and higher by half.
pub proof fn hexes_are_evenly_spaced(scale: int, row: int, col: int)
    requires
        1 <= scale,
        0 <= row < 10,
        0 <= col < 10,
    ensures
        hex_x(scale, 11 * (row + 1) + col) == hex_x(scale, 11 * row + col) + 3 * scale + 3,
        hex_x(scale, 11 * row + col + 1) == hex_x(scale, 11 * row + col) + 3 * scale + 3,
        hex_y(scale, 11 * (row + 1) + col) == hex_y(scale, 11 * row + col) + 2 * scale,
        hex_y(scale, 11 * row + col + 1) == hex_y(scale, 11 * row + col) - 2 * scale,
{
    assert((row + col + 1) * (3 * scale + 3) == (row + col) * (3 * scale + 3) + (3 * scale + 3))
        by (nonlinear_arith);
    assert((10 + row + 1 - col) * (2 * scale) == (10 + row - col) * (2 * scale) + 2 * scale)
        by (nonlinear_arith);
    assert((10 + row - (col + 1)) * (2 * scale) == (10 + row - col) * (2 * scale) - 2 * scale)
        by (nonlinear_arith);
}

/// The place and size of the hex of a cell.
proof fn lemma_hex_place(scale: int, n: int)
    requires
        1 <= scale,
        0 <= n < 121,
    ensures
        0 <= (n / 11 + n % 11) * (3 * scale + 3) <= 20 * (3 * scale + 3),
        0 <= (10 + n / 11 - n % 11) * (2 * scale) <= 20 * (2 * scale),
{
    let a = n / 11 + n % 11;
    let b = 10 + n / 11 - n % 11;
    assert(0 <= a <= 20 && 0 <= b <= 20);
    assert(0 <= a * (3 * scale + 3) <= 20 * (3 * scale + 3)) by (nonlinear_arith)
        requires
            0 <= a <= 20,
            1 <= scale,
    ;
    assert(0 <= b * (2 * scale) <= 20 * (2 * scale)) by (nonlinear_arith)
        requires
            0 <= b <= 20,
            1 <= scale,
    ;
}

/// The board as an image: rows run down to the right, columns up to the right.
pub fn render_board(board: Bitboard, scale: usize) -> (im: XpmImage)
    requires
        1 <= scale,
        (68 * scale + 60) * (48 * scale - 1) <= usize::MAX,
    ensures
        im.wf(),
        im.width() == 68 * scale + 60,
        im.height() == 48 * scale - 1,
        im.colors() == board_palette(),
        forall|x: int, y: int|
            0 <= x < im.width() && 0 <= y < im.height() ==> #[trigger] im.pixel(x, y)
                == board_pixel(board, scale as int, 121, x, y),
{
    proof {
        assert(68 * scale + 60 <= (68 * scale + 60) * (48 * scale - 1)) by (nonlinear_arith)
            requires
                1 <= scale,
        ;
    }
    let padx: usize = 2 * scale;
    let pady: usize = 2 * scale;
    let hexw: usize = 4 * scale;
    let hexh: usize = 4 * scale - 1;
    let dx: usize = 3 * scale + 3;
    let dy: usize = 2 * scale;
    let boardw: usize = 20 * dx + hexw;
    let boardh: usize = 20 * dy + hexh;
    let imw: usize = boardw + 2 * padx;
    let imh: usize = boardh + 2 * pady;
    let mut palette: Vec<(u8, u8, u8)> = Vec::new();
    palette.push((28, 28, 28));
    palette.push((64, 64, 64));
    palette.push((237, 0, 76));
    palette.push((0, 153, 234));
    let mut im = XpmImage::new(imw, imh, palette);
    let mut n: usize = 0;
    while n < 121
        invariant
            1 <= scale,
            68 * scale + 60 <= usize::MAX,
            padx == 2 * scale,
            pady == 2 * scale,
            dx == 3 * scale + 3,
            dy == 2 * scale,
            n <= 121,
            im.wf(),
            im.width() == 68 * scale + 60,
            im.height() == 48 * scale - 1,
            im.colors() == board_palette(),
            forall|x: int, y: int|
                0 <= x < im.width() && 0 <= y < im.height() ==> #[trigger] im.pixel(x, y)
                    == board_pixel(board, scale as int, n as nat, x, y),
        decreases 121 - n,
    {
        let r: usize = n / 11;
        let c: usize = n % 11;
        proof {
            lemma_hex_place(scale as int, n as int);
        }
        let x: usize = padx + (r + c) * dx;
        let y: usize = pady + (10 + r - c) * dy;
        let fill = match board.rc(r, c) {
            Some(true) => Some(C_RED),
            Some(false) => Some(C_BLUE),
            None => None,
        };
        render_hex(&mut im, scale, x, y, fill, Some(C_DARK_GREY));
        n = n + 1;
    }
    im
}

} // verus!
