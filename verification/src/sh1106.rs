//! SH1106 128x64 OLED framebuffer: page-mode layout (VLSB: each byte is a
//! column of eight vertical pixels, least significant bit on top), pixel and
//! text drawing, and the SPI write sequences that push it to the panel.
use crate::font;
use crate::font::glyph_spec;
use vstd::prelude::*;

verus! {

pub const WIDTH: i32 = 128;

pub const HEIGHT: i32 = 64;

pub const PAGES: usize = 8;

pub const BUF_SIZE: usize = 1024;

/// The SH1106 RAM is 132 columns wide; the 128-column panel is centred, so
/// every page write starts at column 2.
pub const COLUMN_OFFSET: u8 = 2;

/// One SPI transfer to the controller: a command byte (D/C low) or a run of
/// display data (D/C high).
#[derive(Clone, Debug, PartialEq, Eq)]
pub enum SpiWrite {
    Command(u8),
    Data(Vec<u8>),
}

// ---------------------------------------------------------------------
// Pixel model
// ---------------------------------------------------------------------

/// Whether (x, y) lies on the 128x64 panel.
pub open spec fn on_screen(x: int, y: int) -> bool {
    0 <= x < 128 && 0 <= y < 64
}

/// The framebuffer byte that holds pixel (x, y): page `y / 8`, column `x`.
pub open spec fn pixel_index(x: int, y: int) -> int {
    (y / 8) * 128 + x
}

/// Whether pixel (x, y) is lit in framebuffer bytes `buf`: bit `y % 8` of
/// its byte.
pub open spec fn lit(buf: Seq<u8>, x: int, y: int) -> bool {
    ((buf[pixel_index(x, y)] >> ((y % 8) as u8)) & 1u8) == 1u8
}

/// Whether the pixel in column `col` (counted from the left) of glyph row
/// `row` is set: font8x8 keeps a row's leftmost pixel in its least
/// significant bit, so that is bit `col`.
pub open spec fn glyph_bit(rows: Seq<u8>, row: int, col: int) -> bool {
    ((rows[row] >> (col as u8)) & 1u8) == 1u8
}

/// Whether (px, py) lies in the `s` x `s` block whose top-left is (bx, by).
pub open spec fn block_covers(bx: int, by: int, s: int, px: int, py: int) -> bool {
    bx <= px < bx + s && by <= py < by + s
}

/// Whether (px, py) lies in the block of one of the glyph cells before cell
/// (`row_lim`, `col_lim`) in row-major order whose bit is set, for the glyph
/// `rows` drawn at (cx, cy) with cells `s` pixels wide.
pub open spec fn glyph_covers_upto(
    rows: Seq<u8>,
    cx: int,
    cy: int,
    s: int,
    row_lim: int,
    col_lim: int,
    px: int,
    py: int,
) -> bool {
    exists|row: int, col: int|
        0 <= row < 8 && 0 <= col < 8 && (row < row_lim || (row == row_lim && col < col_lim))
            && #[trigger] glyph_bit(rows, row, col) && #[trigger] block_covers(
            cx + col * s,
            cy + row * s,
            s,
            px,
            py,
        )
}

/// Whether the glyph `rows` drawn at (cx, cy), each font pixel an `s` x `s`
/// block, covers (px, py).
pub open spec fn glyph_covers(rows: Seq<u8>, cx: int, cy: int, s: int, px: int, py: int) -> bool {
    glyph_covers_upto(rows, cx, cy, s, 8, 0, px, py)
}

/// Whether the first `count` characters of `text`, drawn from (x, y) at
/// scale `s`, cover (px, py); character `i` starts at x + i * 8 * s.
pub open spec fn text_covers_upto(
    text: Seq<char>,
    x: int,
    y: int,
    s: int,
    count: int,
    px: int,
    py: int,
) -> bool {
    exists|i: int|
        0 <= i < count && i < text.len() && #[trigger] glyph_covers(
            glyph_spec(text[i]),
            x + i * 8 * s,
            y,
            s,
            px,
            py,
        )
}

/// Whether `text` drawn with its top-left corner at (x, y) at scale `s`
/// covers (px, py).
pub open spec fn text_covers(text: Seq<char>, x: int, y: int, s: int, px: int, py: int) -> bool {
    text_covers_upto(text, x, y, s, text.len() as int, px, py)
}

/// Every coordinate computed while filling cell (`row`, `col`) of a glyph
/// drawn at (cx, cy) with cells `s` pixels wide fits in an `i32`.
pub open spec fn cell_fits(cx: int, cy: int, row: int, col: int, s: int) -> bool {
    &&& col * s <= i32::MAX
    &&& cx + col * s + s - 1 <= i32::MAX
    &&& row * s <= i32::MAX
    &&& cy + row * s + s - 1 <= i32::MAX
}

/// Every coordinate computed while drawing glyph `rows` at (cx, cy) with
/// cells `s` pixels wide fits in an `i32`: only the cells whose bit is set
/// are filled, and only when `s > 0`.
pub open spec fn glyph_fits(rows: Seq<u8>, cx: int, cy: int, s: int) -> bool {
    s > 0 ==> forall|row: int, col: int|
        0 <= row < 8 && 0 <= col < 8 && #[trigger] glyph_bit(rows, row, col) ==> cell_fits(
            cx,
            cy,
            row,
            col,
            s,
        )
}

/// Every coordinate that drawing `text` from (x, y) at scale `s` computes
/// fits in an `i32`: each character's left edge x + i * 8 * s, and the
/// pixels of the glyph cells that are set.
pub open spec fn text_fits(text: Seq<char>, x: int, y: int, s: int) -> bool {
    &&& text.len() == 0 || {
        &&& (text.len() - 1) * 8 <= i32::MAX
        &&& i32::MIN <= (text.len() - 1) * 8 * s <= i32::MAX
        &&& i32::MIN <= x + (text.len() - 1) * 8 * s <= i32::MAX
    }
    &&& forall|i: int|
        0 <= i < text.len() ==> #[trigger] glyph_fits(glyph_spec(text[i]), x + i * 8 * s, y, s)
}

/// Drawing adds `added` to `before` and changes nothing else: on the panel,
/// a pixel of `after` is lit exactly when it was lit in `before` or `added`
/// holds for it.
pub open spec fn adds_pixels(before: Seq<u8>, after: Seq<u8>, added: spec_fn(int, int) -> bool) -> bool {
    &&& after.len() == before.len()
    &&& forall|px: int, py: int|
        on_screen(px, py) ==> (#[trigger] lit(after, px, py) == (lit(before, px, py) || added(px, py)))
}

// ---------------------------------------------------------------------
// Bit lemmas
// ---------------------------------------------------------------------

proof fn lemma_or_bit(v: u8, b: u8, c: u8)
    requires
        b < 8,
        c < 8,
    ensures
        (((v | (1u8 << b)) >> c) & 1u8 == 1u8) == (((v >> c) & 1u8 == 1u8) || b == c),
{
    assert((((v | (1u8 << b)) >> c) & 1u8 == 1u8) == (((v >> c) & 1u8 == 1u8) || b == c))
        by (bit_vector)
        requires
            b < 8,
            c < 8,
    ;
}

proof fn lemma_zero_bits(c: u8)
    requires
        c < 8,
    ensures
        ((0u8 >> c) & 1u8) != 1u8,
{
    assert(((0u8 >> c) & 1u8) != 1u8) by (bit_vector);
}

/// Two bytes with the same eight bits are equal.
proof fn lemma_bits_determine_byte(a: u8, b: u8)
    requires
        forall|c: u8| c < 8 ==> ((a >> c) & 1u8 == 1u8) == ((b >> c) & 1u8 == 1u8),
    ensures
        a == b,
{
    let b0 = ((a >> 0u8) & 1u8 == 1u8) == ((b >> 0u8) & 1u8 == 1u8);
    let b1 = ((a >> 1u8) & 1u8 == 1u8) == ((b >> 1u8) & 1u8 == 1u8);
    let b2 = ((a >> 2u8) & 1u8 == 1u8) == ((b >> 2u8) & 1u8 == 1u8);
    let b3 = ((a >> 3u8) & 1u8 == 1u8) == ((b >> 3u8) & 1u8 == 1u8);
    let b4 = ((a >> 4u8) & 1u8 == 1u8) == ((b >> 4u8) & 1u8 == 1u8);
    let b5 = ((a >> 5u8) & 1u8 == 1u8) == ((b >> 5u8) & 1u8 == 1u8);
    let b6 = ((a >> 6u8) & 1u8 == 1u8) == ((b >> 6u8) & 1u8 == 1u8);
    let b7 = ((a >> 7u8) & 1u8 == 1u8) == ((b >> 7u8) & 1u8 == 1u8);
    assert(b0 && b1 && b2 && b3 && b4 && b5 && b6 && b7);
    assert(a == b) by (bit_vector)
        requires
            ((a >> 0u8) & 1u8 == 1u8) == ((b >> 0u8) & 1u8 == 1u8),
            ((a >> 1u8) & 1u8 == 1u8) == ((b >> 1u8) & 1u8 == 1u8),
            ((a >> 2u8) & 1u8 == 1u8) == ((b >> 2u8) & 1u8 == 1u8),
            ((a >> 3u8) & 1u8 == 1u8) == ((b >> 3u8) & 1u8 == 1u8),
            ((a >> 4u8) & 1u8 == 1u8) == ((b >> 4u8) & 1u8 == 1u8),
            ((a >> 5u8) & 1u8 == 1u8) == ((b >> 5u8) & 1u8 == 1u8),
            ((a >> 6u8) & 1u8 == 1u8) == ((b >> 6u8) & 1u8 == 1u8),
            ((a >> 7u8) & 1u8 == 1u8) == ((b >> 7u8) & 1u8 == 1u8),
    ;
}

/// Each on-screen pixel has its own byte and bit: the byte index is in
/// range, and two distinct pixels sharing a byte use different bits.
proof fn lemma_pixel_layout(x: int, y: int, px: int, py: int)
    requires
        on_screen(x, y),
        on_screen(px, py),
    ensures
        0 <= pixel_index(x, y) < 1024,
        pixel_index(x, y) == pixel_index(px, py) && (x != px || y != py) ==> px == x && py % 8 != y
            % 8,
{
}

/// The pixel model: the on-screen pixels of two 1024-byte framebuffers
/// agree exactly when the framebuffers are equal. So a contract that says
/// which pixels are lit says what every byte holds.
pub proof fn lemma_pixels_determine_buffer(a: Seq<u8>, b: Seq<u8>)
    requires
        a.len() == 1024,
        b.len() == 1024,
        forall|px: int, py: int| on_screen(px, py) ==> #[trigger] lit(a, px, py) == lit(b, px, py),
    ensures
        a == b,
{
    assert forall|k: int| 0 <= k < 1024 implies a[k] == b[k] by {
        let x = k % 128;
        let page = k / 128;
        assert forall|c: u8| c < 8 implies ((a[k] >> c) & 1u8 == 1u8) == ((b[k] >> c) & 1u8
            == 1u8) by {
            let y = page * 8 + c as int;
            assert(on_screen(x, y));
            assert(pixel_index(x, y) == k);
            assert((y % 8) as u8 == c);
            assert(lit(a, x, y) == lit(b, x, y));
        }
        lemma_bits_determine_byte(a[k], b[k]);
    }
    assert(a =~= b);
}

// ---------------------------------------------------------------------
// Framebuffer
// ---------------------------------------------------------------------

/// The SH1106 framebuffer: 8 pages of 128 column bytes.
pub struct Sh1106 {
    buf: [u8; 1024],
}

impl View for Sh1106 {
    type V = Seq<u8>;

    /// The framebuffer bytes, page by page.
    closed spec fn view(&self) -> Seq<u8> {
        self.buf@
    }
}

/// The writes that send framebuffer `buf` to the panel: for each page its
/// page address, the low and high column address of [`COLUMN_OFFSET`], then
/// the page's 128 bytes.
pub open spec fn flush_matches(buf: Seq<u8>, writes: Seq<SpiWrite>) -> bool {
    &&& writes.len() == 4 * 8
    &&& forall|page: int|
        0 <= page < 8 ==> {
            &&& #[trigger] writes[4 * page] == SpiWrite::Command((0xB0 + page) as u8)
            &&& writes[4 * page + 1] == SpiWrite::Command(COLUMN_OFFSET)
            &&& writes[4 * page + 2] == SpiWrite::Command(0x10u8)
            &&& writes[4 * page + 3] matches SpiWrite::Data(d) && d@ == buf.subrange(
                page * 128,
                page * 128 + 128,
            )
        }
}

impl Sh1106 {
    /// The framebuffer always holds 1024 bytes.
    pub proof fn lemma_len(&self)
        ensures
            self@.len() == 1024,
    {
    }

    /// A blank framebuffer.
    pub fn new() -> (display: Self)
        ensures
            display@ == Seq::new(1024, |i: int| 0u8),
    {
        let display = Self { buf: [0;1024] };
        assert(display@ =~= Seq::new(1024, |i: int| 0u8));
        display
    }

    pub fn clear(&mut self)
        ensures
            final(self)@ == Seq::new(1024, |i: int| 0u8),
            forall|px: int, py: int| on_screen(px, py) ==> !#[trigger] lit(final(self)@, px, py),
    {
        let mut i: usize = 0;
        while i < BUF_SIZE
            invariant
                i <= 1024,
                self.buf@.len() == 1024,
                forall|j: int| 0 <= j < i ==> self.buf@[j] == 0u8,
            decreases 1024 - i,
        {
            self.buf[i] = 0;
            i = i + 1;
        }
        assert(self@ =~= Seq::new(1024, |i: int| 0u8));
        assert forall|px: int, py: int| on_screen(px, py) implies !#[trigger] lit(
            self@,
            px,
            py,
        ) by {
            lemma_pixel_layout(px, py, px, py);
            lemma_zero_bits((py % 8) as u8);
        }
    }

    pub fn set_pixel(&mut self, x: i32, y: i32)
        ensures
            final(self)@ == if on_screen(x as int, y as int) {
                old(self)@.update(
                    pixel_index(x as int, y as int),
                    old(self)@[pixel_index(x as int, y as int)] | (1u8 << ((y % 8) as u8)),
                )
            } else {
                old(self)@
            },
            adds_pixels(old(self)@, final(self)@, |px: int, py: int| px == x && py == y),
    {
        let ghost old_buf = self.buf@;
        if 0 <= x && x < WIDTH && 0 <= y && y < HEIGHT {
            let idx = (y as usize / 8) * (WIDTH as usize) + x as usize;
            let bit = (y as usize % 8) as u8;
            proof {
                lemma_pixel_layout(x as int, y as int, x as int, y as int);
            }
            self.buf[idx] = self.buf[idx] | (1u8 << bit);
            proof {
                assert forall|px: int, py: int| on_screen(px, py) implies #[trigger] lit(
                    self@,
                    px,
                    py,
                ) == (lit(old_buf, px, py) || (px == x && py == y)) by {
                    lemma_pixel_layout(x as int, y as int, px, py);
                    let k = pixel_index(px, py);
                    if k == idx {
                        lemma_or_bit(old_buf[k], bit, (py % 8) as u8);
                    }
                }
            }
        } else {
            proof {
                assert forall|px: int, py: int| on_screen(px, py) implies #[trigger] lit(
                    self@,
                    px,
                    py,
                ) == (lit(old_buf, px, py) || (px == x && py == y)) by {}
            }
        }
    }
}

// ---------------------------------------------------------------------
// Text
// ---------------------------------------------------------------------

/// Adding pixels in two steps adds their union.
pub proof fn lemma_adds_compose(
    a: Seq<u8>,
    b: Seq<u8>,
    c: Seq<u8>,
    first: spec_fn(int, int) -> bool,
    second: spec_fn(int, int) -> bool,
    both: spec_fn(int, int) -> bool,
)
    requires
        adds_pixels(a, b, first),
        adds_pixels(b, c, second),
        forall|px: int, py: int|
            on_screen(px, py) ==> #[trigger] both(px, py) == (first(px, py) || second(px, py)),
    ensures
        adds_pixels(a, c, both),
{
    assert forall|px: int, py: int| on_screen(px, py) implies #[trigger] lit(c, px, py) == (lit(
        a,
        px,
        py,
    ) || both(px, py)) by {
        assert(lit(b, px, py) == (lit(a, px, py) || first(px, py)));
        assert(both(px, py) == (first(px, py) || second(px, py)));
    }
}

/// Adding a description that holds nowhere on the panel is no change.
pub proof fn lemma_adds_nothing(a: Seq<u8>, none: spec_fn(int, int) -> bool)
    requires
        forall|px: int, py: int| on_screen(px, py) ==> !#[trigger] none(px, py),
    ensures
        adds_pixels(a, a, none),
{
    assert forall|px: int, py: int| on_screen(px, py) implies #[trigger] lit(a, px, py) == (lit(
        a,
        px,
        py,
    ) || none(px, py)) by {
        assert(!none(px, py));
    }
}

proof fn lemma_char_offsets(i: int, n: int, s: int)
    by (nonlinear_arith)
    requires
        0 <= i < n,
    ensures
        0 <= i * 8 <= (n - 1) * 8,
        s >= 0 ==> 0 <= i * 8 * s <= (n - 1) * 8 * s,
        s < 0 ==> (n - 1) * 8 * s <= i * 8 * s <= 0,
        n * 8 * s == (n - 1) * 8 * s + 8 * s,
{
}

proof fn lemma_cell_offsets(k: int, s: int)
    by (nonlinear_arith)
    requires
        0 <= k < 8,
        s > 0,
    ensures
        0 <= k * s,
        k * s + s <= 8 * s,
        (k + 1) * s == k * s + s,
{
}

proof fn lemma_cell_in_box(i: int, n: int, row: int, col: int, s: int)
    by (nonlinear_arith)
    requires
        0 <= i < n,
        0 <= row < 8,
        0 <= col < 8,
        s > 0,
    ensures
        0 <= i * 8 * s + col * s,
        i * 8 * s + col * s + s <= n * 8 * s,
        0 <= row * s,
        row * s + s <= 8 * s,
{
}

/// Drawing text only lights pixels inside its box: the `8 * scale` pixels
/// high band from y down, from x to x + 8 * scale per character. With
/// `scale <= 0` it lights nothing.
pub proof fn lemma_text_covers_in_box(text: Seq<char>, x: int, y: int, s: int, px: int, py: int)
    requires
        text_covers(text, x, y, s, px, py),
    ensures
        s > 0,
        x <= px < x + text.len() * 8 * s,
        y <= py < y + 8 * s,
{
    let i = choose|i: int|
        0 <= i < text.len() && i < text.len() && #[trigger] glyph_covers(
            glyph_spec(text[i]),
            x + i * 8 * s,
            y,
            s,
            px,
            py,
        );
    let g = glyph_spec(text[i]);
    let (row, col) = choose|row: int, col: int|
        0 <= row < 8 && 0 <= col < 8 && (row < 8 || (row == 8 && col < 0))
            && #[trigger] glyph_bit(g, row, col) && #[trigger] block_covers(
            x + i * 8 * s + col * s,
            y + row * s,
            s,
            px,
            py,
        );
    lemma_cell_in_box(i, text.len() as int, row, col, s);
}

impl Sh1106 {
    /// Fills the `scale` x `scale` block of font cell (row, col) of the
    /// character whose left edge is `char_x`.
    fn fill_cell(&mut self, char_x: i32, col: i32, y: i32, row: i32, scale: i32)
        requires
            0 <= col < 8,
            0 <= row < 8,
            scale > 0 ==> cell_fits(char_x as int, y as int, row as int, col as int, scale as int),
        ensures
            adds_pixels(
                old(self)@,
                final(self)@,
                |px: int, py: int|
                    block_covers(char_x + col * scale, y + row * scale, scale as int, px, py),
            ),
    {
        let ghost start = self@;
        let ghost bx: int = char_x + col * scale;
        let ghost by: int = y + row * scale;
        if scale > 0 {
            proof {
                lemma_cell_offsets(col as int, scale as int);
                lemma_cell_offsets(row as int, scale as int);
            }
        }
        proof {
            lemma_adds_nothing(
                start,
                |px: int, py: int|
                    (by <= py < by + 0 && bx <= px < bx + scale) || (py == by + 0 && bx <= px < bx
                        + 0),
            );
        }
        let mut sy: i32 = 0;
        while sy < scale
            invariant
                0 <= sy,
                sy <= scale || scale <= 0,
                scale > 0 ==> {
                    &&& 0 <= col * scale
                    &&& 0 <= row * scale
                    &&& cell_fits(char_x as int, y as int, row as int, col as int, scale as int)
                },
                bx == char_x + col * scale,
                by == y + row * scale,
                adds_pixels(
                    start,
                    self@,
                    |px: int, py: int|
                        (by <= py < by + sy && bx <= px < bx + scale) || (py == by + sy && bx <= px
                            < bx + 0),
                ),
            decreases scale - sy,
        {
            let mut sx: i32 = 0;
            while sx < scale
                invariant
                    0 <= sx <= scale,
                    0 <= sy < scale,
                    0 <= col * scale,
                    0 <= row * scale,
                    cell_fits(char_x as int, y as int, row as int, col as int, scale as int),
                    bx == char_x + col * scale,
                    by == y + row * scale,
                    adds_pixels(
                        start,
                        self@,
                        |px: int, py: int|
                            (by <= py < by + sy && bx <= px < bx + scale) || (py == by + sy && bx
                                <= px < bx + sx),
                    ),
                decreases scale - sx,
            {
                let ghost before = self@;
                self.set_pixel(char_x + col * scale + sx, y + row * scale + sy);
                proof {
                    let ghost sx_i: int = sx as int;
                    lemma_adds_compose(
                        start,
                        before,
                        self@,
                        |px: int, py: int|
                            (by <= py < by + sy && bx <= px < bx + scale) || (py == by + sy && bx
                                <= px < bx + sx_i),
                        |px: int, py: int| px == bx + sx_i && py == by + sy,
                        |px: int, py: int|
                            (by <= py < by + sy && bx <= px < bx + scale) || (py == by + sy && bx
                                <= px < bx + (sx_i + 1)),
                    );
                }
                sx = sx + 1;
            }
            proof {
                let ghost sy_i: int = sy as int;
                lemma_adds_compose(
                    start,
                    self@,
                    self@,
                    |px: int, py: int|
                        (by <= py < by + sy_i && bx <= px < bx + scale) || (py == by + sy_i && bx
                            <= px < bx + scale),
                    |px: int, py: int| false,
                    |px: int, py: int|
                        (by <= py < by + (sy_i + 1) && bx <= px < bx + scale) || (py == by + (sy_i
                            + 1) && bx <= px < bx + 0),
                );
                lemma_adds_nothing(self@, |px: int, py: int| false);
            }
            sy = sy + 1;
        }
        proof {
            let ghost sy_i: int = sy as int;
            lemma_adds_nothing(self@, |px: int, py: int| false);
            lemma_adds_compose(
                start,
                self@,
                self@,
                |px: int, py: int|
                    (by <= py < by + sy_i && bx <= px < bx + scale) || (py == by + sy_i && bx <= px
                        < bx + 0),
                |px: int, py: int| false,
                |px: int, py: int| block_covers(bx, by, scale as int, px, py),
            );
        }
    }
}

proof fn lemma_upto_start(rows: Seq<u8>, cx: int, cy: int, s: int, px: int, py: int)
    ensures
        !glyph_covers_upto(rows, cx, cy, s, 0, 0, px, py),
{
}

proof fn lemma_upto_next_cell(
    rows: Seq<u8>,
    cx: int,
    cy: int,
    s: int,
    r: int,
    c: int,
    px: int,
    py: int,
)
    requires
        0 <= r < 8,
        0 <= c < 8,
    ensures
        glyph_covers_upto(rows, cx, cy, s, r, c + 1, px, py) == (glyph_covers_upto(
            rows,
            cx,
            cy,
            s,
            r,
            c,
            px,
            py,
        ) || (glyph_bit(rows, r, c) && block_covers(cx + c * s, cy + r * s, s, px, py))),
{
    if glyph_covers_upto(rows, cx, cy, s, r, c + 1, px, py) {
        let (rr, cc) = choose|rr: int, cc: int|
            0 <= rr < 8 && 0 <= cc < 8 && (rr < r || (rr == r && cc < c + 1))
                && #[trigger] glyph_bit(rows, rr, cc) && #[trigger] block_covers(
                cx + cc * s,
                cy + rr * s,
                s,
                px,
                py,
            );
        if !(rr == r && cc == c) {
            assert(glyph_bit(rows, rr, cc) && block_covers(cx + cc * s, cy + rr * s, s, px, py));
        }
    }
    if glyph_bit(rows, r, c) && block_covers(cx + c * s, cy + r * s, s, px, py) {
        assert(glyph_bit(rows, r, c) && block_covers(cx + c * s, cy + r * s, s, px, py));
    }
}

proof fn lemma_upto_next_row(rows: Seq<u8>, cx: int, cy: int, s: int, r: int, px: int, py: int)
    requires
        0 <= r < 8,
    ensures
        glyph_covers_upto(rows, cx, cy, s, r, 8, px, py) == glyph_covers_upto(
            rows,
            cx,
            cy,
            s,
            r + 1,
            0,
            px,
            py,
        ),
{
    if glyph_covers_upto(rows, cx, cy, s, r + 1, 0, px, py) {
        let (rr, cc) = choose|rr: int, cc: int|
            0 <= rr < 8 && 0 <= cc < 8 && (rr < r + 1 || (rr == r + 1 && cc < 0))
                && #[trigger] glyph_bit(rows, rr, cc) && #[trigger] block_covers(
                cx + cc * s,
                cy + rr * s,
                s,
                px,
                py,
            );
        assert(glyph_bit(rows, rr, cc) && block_covers(cx + cc * s, cy + rr * s, s, px, py));
    }
}

proof fn lemma_text_next(text: Seq<char>, x: int, y: int, s: int, i: int, px: int, py: int)
    requires
        0 <= i < text.len(),
    ensures
        text_covers_upto(text, x, y, s, i + 1, px, py) == (text_covers_upto(
            text,
            x,
            y,
            s,
            i,
            px,
            py,
        ) || glyph_covers(glyph_spec(text[i]), x + i * 8 * s, y, s, px, py)),
{
    if text_covers_upto(text, x, y, s, i + 1, px, py) {
        let j = choose|j: int|
            0 <= j < i + 1 && j < text.len() && #[trigger] glyph_covers(
                glyph_spec(text[j]),
                x + j * 8 * s,
                y,
                s,
                px,
                py,
            );
        if j < i {
            assert(glyph_covers(glyph_spec(text[j]), x + j * 8 * s, y, s, px, py));
        }
    }
    if glyph_covers(glyph_spec(text[i]), x + i * 8 * s, y, s, px, py) {
        assert(glyph_covers(glyph_spec(text[i]), x + i * 8 * s, y, s, px, py));
    }
}

proof fn lemma_low_bit(v: u8)
    ensures
        ((v & 1u8) != 0u8) == ((v & 1u8) == 1u8),
{
    assert(((v & 1u8) != 0u8) == ((v & 1u8) == 1u8)) by (bit_vector);
}

impl Sh1106 {
    /// Draws one glyph, given by its eight row bytes (leftmost pixel in the
    /// least significant bit), with its top-left corner at (`char_x`, `y`),
    /// each font pixel a `scale` x `scale` block. Off-screen pixels are
    /// clipped.
    pub fn draw_glyph(&mut self, rows: [u8; 8], char_x: i32, y: i32, scale: i32)
        requires
            glyph_fits(rows@, char_x as int, y as int, scale as int),
        ensures
            adds_pixels(
                old(self)@,
                final(self)@,
                |px: int, py: int| glyph_covers(rows@, char_x as int, y as int, scale as int, px, py),
            ),
    {
        let ghost start = self@;
        let ghost g = rows@;
        let ghost cx: int = char_x as int;
        let ghost cy: int = y as int;
        let ghost s: int = scale as int;
        proof {
            assert forall|px: int, py: int| on_screen(px, py) implies !#[trigger] glyph_covers_upto(
                g,
                cx,
                cy,
                s,
                0,
                0,
                px,
                py,
            ) by {
                lemma_upto_start(g, cx, cy, s, px, py);
            }
            lemma_adds_nothing(start, |px: int, py: int| glyph_covers_upto(g, cx, cy, s, 0, 0, px, py));
        }
        let mut row: usize = 0;
        while row < 8
            invariant
                row <= 8,
                g == rows@,
                cx == char_x,
                cy == y,
                s == scale,
                glyph_fits(g, cx, cy, s),
                adds_pixels(
                    start,
                    self@,
                    |px: int, py: int| glyph_covers_upto(g, cx, cy, s, row as int, 0, px, py),
                ),
            decreases 8 - row,
        {
            let bits = rows[row];
            let mut col: i32 = 0;
            while col < font::GLYPH_WIDTH
                invariant
                    0 <= col <= 8,
                    row < 8,
                    bits == g[row as int],
                    g == rows@,
                    cx == char_x,
                    cy == y,
                    s == scale,
                    glyph_fits(g, cx, cy, s),
                    adds_pixels(
                        start,
                        self@,
                        |px: int, py: int|
                            glyph_covers_upto(g, cx, cy, s, row as int, col as int, px, py),
                    ),
                decreases 8 - col,
            {
                let ghost before = self@;
                let ghost r: int = row as int;
                let ghost c: int = col as int;
                proof {
                    lemma_low_bit(bits >> (col as u8));
                }
                if (bits >> (col as u8)) & 1 != 0 {
                    assert(glyph_bit(g, r, c));
                    self.fill_cell(char_x, col, y, row as i32, scale);
                    proof {
                        assert forall|px: int, py: int| on_screen(px, py) implies #[trigger] glyph_covers_upto(g, cx, cy, s, r, c + 1, px, py) == (glyph_covers_upto(g, cx, cy, s, r, c, px, py) || block_covers(
                            cx + c * s,
                            cy + r * s,
                            s,
                            px,
                            py,
                        )) by {
                            lemma_upto_next_cell(g, cx, cy, s, r, c, px, py);
                        }
                        lemma_adds_compose(
                            start,
                            before,
                            self@,
                            |px: int, py: int| glyph_covers_upto(g, cx, cy, s, r, c, px, py),
                            |px: int, py: int| block_covers(cx + c * s, cy + r * s, s, px, py),
                            |px: int, py: int| glyph_covers_upto(g, cx, cy, s, r, c + 1, px, py),
                        );
                    }
                } else {
                    proof {
                        lemma_adds_nothing(self@, |px: int, py: int| false);
                        assert forall|px: int, py: int| on_screen(px, py) implies #[trigger] glyph_covers_upto(g, cx, cy, s, r, c + 1, px, py) == (glyph_covers_upto(g, cx, cy, s, r, c, px, py) || false) by {
                            lemma_upto_next_cell(g, cx, cy, s, r, c, px, py);
                        }
                        lemma_adds_compose(
                            start,
                            self@,
                            self@,
                            |px: int, py: int| glyph_covers_upto(g, cx, cy, s, r, c, px, py),
                            |px: int, py: int| false,
                            |px: int, py: int| glyph_covers_upto(g, cx, cy, s, r, c + 1, px, py),
                        );
                    }
                }
                col = col + 1;
            }
            proof {
                let ghost r: int = row as int;
                lemma_adds_nothing(self@, |px: int, py: int| false);
                assert forall|px: int, py: int| on_screen(px, py) implies #[trigger] glyph_covers_upto(g, cx, cy, s, r + 1, 0, px, py) == (glyph_covers_upto(
                    g,
                    cx,
                    cy,
                    s,
                    r,
                    8,
                    px,
                    py,
                ) || false) by {
                    lemma_upto_next_row(g, cx, cy, s, r, px, py);
                }
                lemma_adds_compose(
                    start,
                    self@,
                    self@,
                    |px: int, py: int| glyph_covers_upto(g, cx, cy, s, r, 8, px, py),
                    |px: int, py: int| false,
                    |px: int, py: int| glyph_covers_upto(g, cx, cy, s, r + 1, 0, px, py),
                );
            }
            row = row + 1;
        }
    }

    /// Draw `text` with its top-left corner at (x, y), each font pixel
    /// expanded to a `scale` x `scale` block. Off-screen pixels are clipped.
    pub fn draw_text(&mut self, text: &str, x: i32, y: i32, scale: i32)
        requires
            text_fits(text@, x as int, y as int, scale as int),
        ensures
            adds_pixels(
                old(self)@,
                final(self)@,
                |px: int, py: int| text_covers(text@, x as int, y as int, scale as int, px, py),
            ),
    {
        let ghost start = self@;
        let ghost t = text@;
        proof {
            lemma_adds_nothing(start, |px: int, py: int| text_covers_upto(t, x as int, y as int, scale as int, 0, px, py));
        }
        let n = text.unicode_len();
        let mut i: usize = 0;
        while i < n
            invariant
                i <= n,
                n == t.len(),
                t == text@,
                text_fits(t, x as int, y as int, scale as int),
                adds_pixels(
                    start,
                    self@,
                    |px: int, py: int|
                        text_covers_upto(t, x as int, y as int, scale as int, i as int, px, py),
                ),
            decreases n - i,
        {
            let c = text.get_char(i);
            let glyph = font::glyph(c);
            proof {
                lemma_char_offsets(i as int, n as int, scale as int);
            }
            let char_x = x + (i as i32) * font::GLYPH_WIDTH * scale;
            assert(glyph_fits(glyph_spec(t[i as int]), x + i * 8 * scale, y as int, scale as int));
            let ghost before = self@;
            self.draw_glyph(glyph, char_x, y, scale);
            proof {
                let ghost k: int = i as int;
                assert forall|px: int, py: int| on_screen(px, py) implies #[trigger] text_covers_upto(t, x as int, y as int, scale as int, k + 1, px, py) == (
                text_covers_upto(t, x as int, y as int, scale as int, k, px, py) || glyph_covers(
                    glyph@,
                    char_x as int,
                    y as int,
                    scale as int,
                    px,
                    py,
                )) by {
                    lemma_text_next(t, x as int, y as int, scale as int, k, px, py);
                }
                lemma_adds_compose(
                    start,
                    before,
                    self@,
                    |px: int, py: int| text_covers_upto(t, x as int, y as int, scale as int, k, px, py),
                    |px: int, py: int| glyph_covers(glyph@, char_x as int, y as int, scale as int, px, py),
                    |px: int, py: int|
                        text_covers_upto(t, x as int, y as int, scale as int, k + 1, px, py),
                );
            }
            i = i + 1;
        }
    }
}

/// The commands that switch the panel on around a flush: display off,
/// normal segment remap, normal scan direction, non-inverted; then the
/// framebuffer; then display on.
pub open spec fn init_matches(buf: Seq<u8>, writes: Seq<SpiWrite>) -> bool {
    &&& writes.len() == 4 + 32 + 1
    &&& writes[0] == SpiWrite::Command(0xAEu8)
    &&& writes[1] == SpiWrite::Command(0xA0u8)
    &&& writes[2] == SpiWrite::Command(0xC0u8)
    &&& writes[3] == SpiWrite::Command(0xA6u8)
    &&& flush_matches(buf, writes.subrange(4, 36))
    &&& writes[36] == SpiWrite::Command(0xAFu8)
}

proof fn lemma_page_command(page: u8)
    requires
        page < 8,
    ensures
        0xB0u8 | page == (0xB0 + page) as u8,
{
    assert(0xB0u8 | page == (0xB0 + page) as u8) by (bit_vector)
        requires
            page < 8,
    ;
}

impl Sh1106 {
    fn push_page_writes(&self, writes: &mut Vec<SpiWrite>, page: usize)
        requires
            page < 8,
        ensures
            final(writes)@.len() == old(writes)@.len() + 4,
            final(writes)@.subrange(0, old(writes)@.len() as int) == old(writes)@,
            final(writes)@[old(writes)@.len() as int] == SpiWrite::Command((0xB0 + page) as u8),
            final(writes)@[old(writes)@.len() as int + 1] == SpiWrite::Command(COLUMN_OFFSET),
            final(writes)@[old(writes)@.len() as int + 2] == SpiWrite::Command(0x10u8),
            final(writes)@[old(writes)@.len() as int + 3] matches SpiWrite::Data(d) && d@
                == self@.subrange(page * 128, page * 128 + 128),
    {
        proof {
            lemma_page_command(page as u8);
            assert(COLUMN_OFFSET & 0x0F == 2u8 && 0x10u8 | (COLUMN_OFFSET >> 4u8) == 0x10u8)
                by (bit_vector);
        }
        writes.push(SpiWrite::Command(0xB0 | page as u8));  // page address
        writes.push(SpiWrite::Command(COLUMN_OFFSET & 0x0F));  // low column address
        writes.push(SpiWrite::Command(0x10 | (COLUMN_OFFSET >> 4)));  // high column address
        let start = page * (WIDTH as usize);
        let data = vstd::slice::slice_to_vec(&self.buf[start..start + WIDTH as usize]);
        writes.push(SpiWrite::Data(data));
    }

    fn append_flush(&self, writes: &mut Vec<SpiWrite>)
        ensures
            final(writes)@.len() == old(writes)@.len() + 32,
            final(writes)@.subrange(0, old(writes)@.len() as int) == old(writes)@,
            flush_matches(self@, final(writes)@.subrange(old(writes)@.len() as int, old(writes)@.len() as int + 32)),
    {
        let ghost base: int = writes@.len() as int;
        let ghost prefix = writes@;
        let mut page: usize = 0;
        while page < PAGES
            invariant
                page <= 8,
                base >= 0,
                writes@.len() == base + 4 * page,
                writes@.subrange(0, base as int) == prefix,
                forall|p: int|
                    0 <= p < page ==> {
                        &&& #[trigger] writes@[base + 4 * p] == SpiWrite::Command((0xB0 + p) as u8)
                        &&& writes@[base + 4 * p + 1] == SpiWrite::Command(COLUMN_OFFSET)
                        &&& writes@[base + 4 * p + 2] == SpiWrite::Command(0x10u8)
                        &&& writes@[base + 4 * p + 3] matches SpiWrite::Data(d) && d@
                            == self@.subrange(p * 128, p * 128 + 128)
                    },
            decreases 8 - page,
        {
            let ghost before = writes@;
            self.push_page_writes(writes, page);
            proof {
                assert forall|p: int| 0 <= p < page implies #[trigger] writes@[base + 4 * p]
                    == before[base + 4 * p] && writes@[base + 4 * p + 1] == before[base + 4 * p + 1]
                    && writes@[base + 4 * p + 2] == before[base + 4 * p + 2] && writes@[base + 4
                    * p + 3] == before[base + 4 * p + 3] by {
                    assert(writes@.subrange(0, before.len() as int)[base + 4 * p] == before[base + 4 * p]);
                    assert(writes@.subrange(0, before.len() as int)[base + 4 * p + 1] == before[base + 4 * p + 1]);
                    assert(writes@.subrange(0, before.len() as int)[base + 4 * p + 2] == before[base + 4 * p + 2]);
                    assert(writes@.subrange(0, before.len() as int)[base + 4 * p + 3] == before[base + 4 * p + 3]);
                }
                assert(writes@.subrange(0, base as int) =~= before.subrange(0, base as int));
            }
            page = page + 1;
        }
        let ghost out = writes@.subrange(base, base + 32);
        assert forall|p: int| 0 <= p < 8 implies #[trigger] out[4 * p] == writes@[base + 4 * p] && out[4
            * p + 1] == writes@[base + 4 * p + 1] && out[4 * p + 2] == writes@[base + 4 * p + 2]
            && out[4 * p + 3] == writes@[base + 4 * p + 3] by {}
    }

    /// Send the framebuffer to the display, page by page: the SPI writes
    /// that do it.
    pub fn flush(&self) -> (writes: Vec<SpiWrite>)
        ensures
            flush_matches(self@, writes@),
    {
        let mut writes: Vec<SpiWrite> = Vec::new();
        self.append_flush(&mut writes);
        assert(writes@.subrange(0, 32) =~= writes@);
        writes
    }

    /// The SPI writes that bring the panel up after its reset pulse: display
    /// off, normal remap and scan, non-inverted, the framebuffer, display on.
    pub fn init_writes(&self) -> (writes: Vec<SpiWrite>)
        ensures
            init_matches(self@, writes@),
    {
        let mut writes: Vec<SpiWrite> = Vec::new();
        writes.push(SpiWrite::Command(0xAE));  // display off
        writes.push(SpiWrite::Command(0xA0));  // segment remap: normal
        writes.push(SpiWrite::Command(0xC0));  // scan direction: normal
        writes.push(SpiWrite::Command(0xA6));  // non-inverted
        let ghost head = writes@;
        self.append_flush(&mut writes);  // push the cleared framebuffer
        let ghost mid = writes@;
        writes.push(SpiWrite::Command(0xAF));  // display on
        assert(writes@.subrange(4, 36) =~= mid.subrange(4, 36));
        assert(writes@[0] == mid.subrange(0, 4)[0]);
        assert(writes@[1] == mid.subrange(0, 4)[1]);
        assert(writes@[2] == mid.subrange(0, 4)[2]);
        assert(writes@[3] == mid.subrange(0, 4)[3]);
        writes
    }
}

} // verus!
