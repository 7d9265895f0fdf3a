//! Bounded drawing primitives over a framebuffer's bytes.
//!
//! Fill, glyph text and the `@`-cell grid a piece of artwork is drawn from.
//! Every operation clips to the surface it was handed, and only the declared
//! geometry is touched: padding between `width * 4` and `pitch` is left as
//! the firmware left it. What is drawn and when is decided one level up, in
//! the boot console.
use vstd::prelude::*;

verus! {

/// An RGB colour.
pub type Color = (u8, u8, u8);

/// No framebuffer was declared.
pub const FB_FORMAT_NONE: u32 = 0;
/// Four bytes per pixel: red, green, blue, unused.
pub const FB_FORMAT_RGBX8: u32 = 1;
/// Four bytes per pixel: blue, green, red, unused.
pub const FB_FORMAT_BGRX8: u32 = 2;

/// The palette: dark ground, one accent, readable light text, and two status
/// colours so a failed step is distinguishable from a finished one.
pub const BACKGROUND: Color = (12, 17, 27);
pub const ACCENT: Color = (255, 114, 57);
pub const TEXT: Color = (226, 234, 243);
pub const MUTED: Color = (138, 154, 176);
pub const DONE: Color = (108, 199, 127);
pub const FAILED: Color = (233, 96, 96);

/// Glyph cell geometry, in unscaled pixels.
pub const GLYPH_WIDTH: usize = 5;
pub const GLYPH_HEIGHT: usize = 7;
/// Horizontal advance per character: the glyph plus one column of tracking.
pub const ADVANCE: usize = 6;

/// `a * b`, or `usize::MAX` where that does not fit.
pub open spec fn saturated_product(a: int, b: int) -> int {
    if a * b > usize::MAX {
        usize::MAX as int
    } else {
        a * b
    }
}

/// Width in pixels of `chars` characters drawn at `scale`, tracking included.
pub fn text_width(chars: usize, scale: usize) -> (w: usize)
    ensures
        w == saturated_product(saturated_product(chars as int, ADVANCE as int), scale as int),
{
    let advanced = match chars.checked_mul(ADVANCE) {
        Some(a) => a,
        None => usize::MAX,
    };
    match advanced.checked_mul(scale) {
        Some(w) => w,
        None => usize::MAX,
    }
}

/// Everything after the first line of `art`; nothing when there is no line
/// break at all.
pub open spec fn body_after_first_line(art: Seq<u8>) -> Seq<u8> {
    if exists|i: int| 0 <= i < art.len() && art[i] == 10 {
        let i = choose|i: int| 0 <= i < art.len() && art[i] == 10 && forall|j: int| 0 <= j < i ==> art[j] != 10;
        art.subrange(i + 1, art.len() as int)
    } else {
        Seq::empty()
    }
}

/// Artwork without its notice line: the bytes after the first line break.
pub fn pyro_art_body(art: &[u8]) -> (body: &[u8])
    ensures
        body@ == body_after_first_line(art@),
{
    let mut i: usize = 0;
    while i < art.len()
        invariant
            i <= art.len(),
            forall|j: int| 0 <= j < i ==> art@[j] != 10,
        decreases art.len() - i,
    {
        if art[i] == 10 {
            proof {
                let k = choose|k: int| 0 <= k < art@.len() && art@[k] == 10 && forall|j: int| 0 <= j < k ==> art@[j] != 10;
                assert(k == i) by {
                    if k < i {
                        assert(art@[k] != 10);
                    } else if k > i {
                        assert(art@[i as int] != 10);
                    }
                }
            }
            return vstd::slice::slice_subrange(art, i + 1, art.len());
        }
        i = i + 1;
    }
    &[]
}

/// The column a walk of `art` ends on, the widest line it has passed and
/// the rows it has started.
pub open spec fn grid_walk(art: Seq<u8>) -> (int, int, int)
    decreases art.len(),
{
    if art.len() == 0 {
        (0, 0, 1)
    } else {
        let (col, widest, rows) = grid_walk(art.drop_last());
        if art.last() == 10 {
            (0, if col > widest { col } else { widest }, rows + 1)
        } else {
            (col + 1, widest, rows)
        }
    }
}

/// Columns of the widest row of an `@`-cell grid.
pub open spec fn grid_columns(art: Seq<u8>) -> int {
    let (col, widest, _) = grid_walk(art);
    if col > widest {
        col
    } else {
        widest
    }
}

/// Rows of an `@`-cell grid.
pub open spec fn grid_rows(art: Seq<u8>) -> int {
    grid_walk(art).2
}

proof fn lemma_grid_walk_bounds(art: Seq<u8>)
    ensures
        0 <= grid_walk(art).0 <= art.len(),
        0 <= grid_walk(art).1 <= art.len(),
        1 <= grid_walk(art).2 <= art.len() + 1,
    decreases art.len(),
{
    if art.len() > 0 {
        lemma_grid_walk_bounds(art.drop_last());
    }
}

/// Columns and rows of an `@`-cell grid, as `draw_ascii_grid` walks it.
pub fn ascii_dimensions(art: &[u8]) -> (r: (usize, usize))
    ensures
        r.0 == grid_columns(art@),
        r.1 == (if grid_rows(art@) > usize::MAX { usize::MAX as int } else { grid_rows(art@) }),
{
    let mut col: usize = 0;
    let mut max_col: usize = 0;
    let mut rows: usize = 1;
    let mut i: usize = 0;
    while i < art.len()
        invariant
            i <= art.len(),
            col == grid_walk(art@.subrange(0, i as int)).0,
            max_col == grid_walk(art@.subrange(0, i as int)).1,
            rows == (if grid_walk(art@.subrange(0, i as int)).2 > usize::MAX { usize::MAX as int } else { grid_walk(art@.subrange(0, i as int)).2 }),
        decreases art.len() - i,
    {
        proof {
            let next = art@.subrange(0, i + 1);
            assert(next.drop_last() =~= art@.subrange(0, i as int));
            assert(next.last() == art@[i as int]);
            lemma_grid_walk_bounds(art@.subrange(0, i as int));
        }
        if art[i] == 10 {
            if col > max_col {
                max_col = col;
            }
            col = 0;
            rows = rows.saturating_add(1);
        } else {
            col = col + 1;
        }
        i = i + 1;
    }
    proof {
        assert(art@.subrange(0, art@.len() as int) =~= art@);
    }
    (if col > max_col { col } else { max_col }, rows)
}

/// The cell an unmapped byte draws: a hollow box, so text that loses a
/// character says so rather than silently dropping it.
pub open spec fn missing_cell() -> Seq<u8> {
    seq![31u8, 17u8, 17u8, 17u8, 17u8, 17u8, 31u8]
}

/// The cell of the space character.
pub open spec fn blank_cell() -> Seq<u8> {
    seq![0u8, 0u8, 0u8, 0u8, 0u8, 0u8, 0u8]
}

/// The rows of the 5x7 cell `glyph` draws for `byte`, top row first; the
/// low five bits of each row are its columns, leftmost in bit four.
pub open spec fn glyph_cell(byte: u8) -> Seq<u8> {
    match byte {
        32 => seq![0u8, 0u8, 0u8, 0u8, 0u8, 0u8, 0u8],
        33 => seq![0b00100u8, 0b00100u8, 0b00100u8, 0b00100u8, 0b00100u8, 0b00000u8, 0b00100u8],
        34 => seq![0b01010u8, 0b01010u8, 0b00000u8, 0b00000u8, 0b00000u8, 0b00000u8, 0b00000u8],
        35 => seq![0b01010u8, 0b01010u8, 0b11111u8, 0b01010u8, 0b11111u8, 0b01010u8, 0b01010u8],
        36 => seq![0b00100u8, 0b01111u8, 0b10100u8, 0b01110u8, 0b00101u8, 0b11110u8, 0b00100u8],
        37 => seq![0b11000u8, 0b11001u8, 0b00010u8, 0b00100u8, 0b01000u8, 0b10011u8, 0b00011u8],
        38 => seq![0b01100u8, 0b10010u8, 0b10100u8, 0b01000u8, 0b10101u8, 0b10010u8, 0b01101u8],
        39 => seq![0b00100u8, 0b00100u8, 0b00000u8, 0b00000u8, 0b00000u8, 0b00000u8, 0b00000u8],
        40 => seq![0b00010u8, 0b00100u8, 0b01000u8, 0b01000u8, 0b01000u8, 0b00100u8, 0b00010u8],
        41 => seq![0b01000u8, 0b00100u8, 0b00010u8, 0b00010u8, 0b00010u8, 0b00100u8, 0b01000u8],
        42 => seq![0b00000u8, 0b00100u8, 0b10101u8, 0b01110u8, 0b10101u8, 0b00100u8, 0b00000u8],
        43 => seq![0b00000u8, 0b00100u8, 0b00100u8, 0b11111u8, 0b00100u8, 0b00100u8, 0b00000u8],
        44 => seq![0b00000u8, 0b00000u8, 0b00000u8, 0b00000u8, 0b00110u8, 0b00100u8, 0b01000u8],
        45 => seq![0b00000u8, 0b00000u8, 0b00000u8, 0b11111u8, 0b00000u8, 0b00000u8, 0b00000u8],
        46 => seq![0b00000u8, 0b00000u8, 0b00000u8, 0b00000u8, 0b00000u8, 0b01100u8, 0b01100u8],
        47 => seq![0b00001u8, 0b00010u8, 0b00010u8, 0b00100u8, 0b01000u8, 0b01000u8, 0b10000u8],
        48 => seq![0b01110u8, 0b10001u8, 0b10011u8, 0b10101u8, 0b11001u8, 0b10001u8, 0b01110u8],
        49 => seq![0b00100u8, 0b01100u8, 0b00100u8, 0b00100u8, 0b00100u8, 0b00100u8, 0b01110u8],
        50 => seq![0b01110u8, 0b10001u8, 0b00001u8, 0b00010u8, 0b00100u8, 0b01000u8, 0b11111u8],
        51 => seq![0b11111u8, 0b00010u8, 0b00100u8, 0b00010u8, 0b00001u8, 0b10001u8, 0b01110u8],
        52 => seq![0b00010u8, 0b00110u8, 0b01010u8, 0b10010u8, 0b11111u8, 0b00010u8, 0b00010u8],
        53 => seq![0b11111u8, 0b10000u8, 0b11110u8, 0b00001u8, 0b00001u8, 0b10001u8, 0b01110u8],
        54 => seq![0b00110u8, 0b01000u8, 0b10000u8, 0b11110u8, 0b10001u8, 0b10001u8, 0b01110u8],
        55 => seq![0b11111u8, 0b00001u8, 0b00010u8, 0b00100u8, 0b01000u8, 0b01000u8, 0b01000u8],
        56 => seq![0b01110u8, 0b10001u8, 0b10001u8, 0b01110u8, 0b10001u8, 0b10001u8, 0b01110u8],
        57 => seq![0b01110u8, 0b10001u8, 0b10001u8, 0b01111u8, 0b00001u8, 0b00010u8, 0b01100u8],
        58 => seq![0b00000u8, 0b01100u8, 0b01100u8, 0b00000u8, 0b01100u8, 0b01100u8, 0b00000u8],
        59 => seq![0b00000u8, 0b01100u8, 0b01100u8, 0b00000u8, 0b00110u8, 0b00100u8, 0b01000u8],
        60 => seq![0b00010u8, 0b00100u8, 0b01000u8, 0b10000u8, 0b01000u8, 0b00100u8, 0b00010u8],
        61 => seq![0b00000u8, 0b00000u8, 0b11111u8, 0b00000u8, 0b11111u8, 0b00000u8, 0b00000u8],
        62 => seq![0b01000u8, 0b00100u8, 0b00010u8, 0b00001u8, 0b00010u8, 0b00100u8, 0b01000u8],
        63 => seq![0b01110u8, 0b10001u8, 0b00001u8, 0b00010u8, 0b00100u8, 0b00000u8, 0b00100u8],
        64 => seq![0b01110u8, 0b10001u8, 0b10111u8, 0b10101u8, 0b10111u8, 0b10000u8, 0b01110u8],
        65 => seq![0b01110u8, 0b10001u8, 0b10001u8, 0b11111u8, 0b10001u8, 0b10001u8, 0b10001u8],
        66 => seq![0b11110u8, 0b10001u8, 0b10001u8, 0b11110u8, 0b10001u8, 0b10001u8, 0b11110u8],
        67 => seq![0b01111u8, 0b10000u8, 0b10000u8, 0b10000u8, 0b10000u8, 0b10000u8, 0b01111u8],
        68 => seq![0b11110u8, 0b10001u8, 0b10001u8, 0b10001u8, 0b10001u8, 0b10001u8, 0b11110u8],
        69 => seq![0b11111u8, 0b10000u8, 0b10000u8, 0b11110u8, 0b10000u8, 0b10000u8, 0b11111u8],
        70 => seq![0b11111u8, 0b10000u8, 0b10000u8, 0b11110u8, 0b10000u8, 0b10000u8, 0b10000u8],
        71 => seq![0b01111u8, 0b10000u8, 0b10000u8, 0b10111u8, 0b10001u8, 0b10001u8, 0b01110u8],
        72 => seq![0b10001u8, 0b10001u8, 0b10001u8, 0b11111u8, 0b10001u8, 0b10001u8, 0b10001u8],
        73 => seq![0b11111u8, 0b00100u8, 0b00100u8, 0b00100u8, 0b00100u8, 0b00100u8, 0b11111u8],
        74 => seq![0b00111u8, 0b00010u8, 0b00010u8, 0b00010u8, 0b00010u8, 0b10010u8, 0b01100u8],
        75 => seq![0b10001u8, 0b10010u8, 0b10100u8, 0b11000u8, 0b10100u8, 0b10010u8, 0b10001u8],
        76 => seq![0b10000u8, 0b10000u8, 0b10000u8, 0b10000u8, 0b10000u8, 0b10000u8, 0b11111u8],
        77 => seq![0b10001u8, 0b11011u8, 0b10101u8, 0b10101u8, 0b10001u8, 0b10001u8, 0b10001u8],
        78 => seq![0b10001u8, 0b11001u8, 0b10101u8, 0b10011u8, 0b10001u8, 0b10001u8, 0b10001u8],
        79 => seq![0b01110u8, 0b10001u8, 0b10001u8, 0b10001u8, 0b10001u8, 0b10001u8, 0b01110u8],
        80 => seq![0b11110u8, 0b10001u8, 0b10001u8, 0b11110u8, 0b10000u8, 0b10000u8, 0b10000u8],
        81 => seq![0b01110u8, 0b10001u8, 0b10001u8, 0b10001u8, 0b10101u8, 0b10010u8, 0b01101u8],
        82 => seq![0b11110u8, 0b10001u8, 0b10001u8, 0b11110u8, 0b10100u8, 0b10010u8, 0b10001u8],
        83 => seq![0b01111u8, 0b10000u8, 0b10000u8, 0b01110u8, 0b00001u8, 0b00001u8, 0b11110u8],
        84 => seq![0b11111u8, 0b00100u8, 0b00100u8, 0b00100u8, 0b00100u8, 0b00100u8, 0b00100u8],
        85 => seq![0b10001u8, 0b10001u8, 0b10001u8, 0b10001u8, 0b10001u8, 0b10001u8, 0b01110u8],
        86 => seq![0b10001u8, 0b10001u8, 0b10001u8, 0b10001u8, 0b10001u8, 0b01010u8, 0b00100u8],
        87 => seq![0b10001u8, 0b10001u8, 0b10001u8, 0b10101u8, 0b10101u8, 0b11011u8, 0b10001u8],
        88 => seq![0b10001u8, 0b10001u8, 0b01010u8, 0b00100u8, 0b01010u8, 0b10001u8, 0b10001u8],
        89 => seq![0b10001u8, 0b10001u8, 0b01010u8, 0b00100u8, 0b00100u8, 0b00100u8, 0b00100u8],
        90 => seq![0b11111u8, 0b00001u8, 0b00010u8, 0b00100u8, 0b01000u8, 0b10000u8, 0b11111u8],
        91 => seq![0b01110u8, 0b01000u8, 0b01000u8, 0b01000u8, 0b01000u8, 0b01000u8, 0b01110u8],
        92 => seq![0b10000u8, 0b01000u8, 0b01000u8, 0b00100u8, 0b00010u8, 0b00010u8, 0b00001u8],
        93 => seq![0b01110u8, 0b00010u8, 0b00010u8, 0b00010u8, 0b00010u8, 0b00010u8, 0b01110u8],
        94 => seq![0b00100u8, 0b01010u8, 0b10001u8, 0b00000u8, 0b00000u8, 0b00000u8, 0b00000u8],
        95 => seq![0b00000u8, 0b00000u8, 0b00000u8, 0b00000u8, 0b00000u8, 0b00000u8, 0b11111u8],
        96 => seq![0b01000u8, 0b00100u8, 0b00000u8, 0b00000u8, 0b00000u8, 0b00000u8, 0b00000u8],
        97 => seq![0b00000u8, 0b00000u8, 0b01110u8, 0b00001u8, 0b01111u8, 0b10001u8, 0b01111u8],
        98 => seq![0b10000u8, 0b10000u8, 0b11110u8, 0b10001u8, 0b10001u8, 0b10001u8, 0b11110u8],
        99 => seq![0b00000u8, 0b00000u8, 0b01111u8, 0b10000u8, 0b10000u8, 0b10000u8, 0b01111u8],
        100 => seq![0b00001u8, 0b00001u8, 0b01111u8, 0b10001u8, 0b10001u8, 0b10001u8, 0b01111u8],
        101 => seq![0b00000u8, 0b00000u8, 0b01110u8, 0b10001u8, 0b11111u8, 0b10000u8, 0b01110u8],
        102 => seq![0b00110u8, 0b01001u8, 0b01000u8, 0b11100u8, 0b01000u8, 0b01000u8, 0b01000u8],
        103 => seq![0b00000u8, 0b00000u8, 0b01111u8, 0b10001u8, 0b01111u8, 0b00001u8, 0b01110u8],
        104 => seq![0b10000u8, 0b10000u8, 0b11110u8, 0b10001u8, 0b10001u8, 0b10001u8, 0b10001u8],
        105 => seq![0b00100u8, 0b00000u8, 0b01100u8, 0b00100u8, 0b00100u8, 0b00100u8, 0b01110u8],
        106 => seq![0b00010u8, 0b00000u8, 0b00110u8, 0b00010u8, 0b00010u8, 0b10010u8, 0b01100u8],
        107 => seq![0b10000u8, 0b10000u8, 0b10010u8, 0b10100u8, 0b11000u8, 0b10100u8, 0b10010u8],
        108 => seq![0b01100u8, 0b00100u8, 0b00100u8, 0b00100u8, 0b00100u8, 0b00100u8, 0b01110u8],
        109 => seq![0b00000u8, 0b00000u8, 0b11010u8, 0b10101u8, 0b10101u8, 0b10101u8, 0b10101u8],
        110 => seq![0b00000u8, 0b00000u8, 0b11110u8, 0b10001u8, 0b10001u8, 0b10001u8, 0b10001u8],
        111 => seq![0b00000u8, 0b00000u8, 0b01110u8, 0b10001u8, 0b10001u8, 0b10001u8, 0b01110u8],
        112 => seq![0b00000u8, 0b00000u8, 0b11110u8, 0b10001u8, 0b11110u8, 0b10000u8, 0b10000u8],
        113 => seq![0b00000u8, 0b00000u8, 0b01111u8, 0b10001u8, 0b01111u8, 0b00001u8, 0b00001u8],
        114 => seq![0b00000u8, 0b00000u8, 0b10110u8, 0b11001u8, 0b10000u8, 0b10000u8, 0b10000u8],
        115 => seq![0b00000u8, 0b00000u8, 0b01111u8, 0b10000u8, 0b01110u8, 0b00001u8, 0b11110u8],
        116 => seq![0b01000u8, 0b01000u8, 0b11100u8, 0b01000u8, 0b01000u8, 0b01001u8, 0b00110u8],
        117 => seq![0b00000u8, 0b00000u8, 0b10001u8, 0b10001u8, 0b10001u8, 0b10011u8, 0b01101u8],
        118 => seq![0b00000u8, 0b00000u8, 0b10001u8, 0b10001u8, 0b10001u8, 0b01010u8, 0b00100u8],
        119 => seq![0b00000u8, 0b00000u8, 0b10001u8, 0b10001u8, 0b10101u8, 0b10101u8, 0b01010u8],
        120 => seq![0b00000u8, 0b00000u8, 0b10001u8, 0b01010u8, 0b00100u8, 0b01010u8, 0b10001u8],
        121 => seq![0b00000u8, 0b00000u8, 0b10001u8, 0b10001u8, 0b01111u8, 0b00001u8, 0b01110u8],
        122 => seq![0b00000u8, 0b00000u8, 0b11111u8, 0b00010u8, 0b00100u8, 0b01000u8, 0b11111u8],
        123 => seq![0b00110u8, 0b01000u8, 0b01000u8, 0b11000u8, 0b01000u8, 0b01000u8, 0b00110u8],
        124 => seq![0b00100u8, 0b00100u8, 0b00100u8, 0b00100u8, 0b00100u8, 0b00100u8, 0b00100u8],
        125 => seq![0b01100u8, 0b00010u8, 0b00010u8, 0b00011u8, 0b00010u8, 0b00010u8, 0b01100u8],
        126 => seq![0b00000u8, 0b00000u8, 0b01000u8, 0b10101u8, 0b00010u8, 0b00000u8, 0b00000u8],
        _ => missing_cell(),
    }
}

/// A 5x7 bitmap cell for one byte of printable ASCII. Every row fits in five
/// bits; every printable byte but the space draws something of its own, the
/// space draws nothing, and every other byte draws the hollow box.
pub fn glyph(byte: u8) -> (cell: [u8; 7])
    ensures
        cell@ == glyph_cell(byte),
        cell@.len() == 7,
        forall|i: int| 0 <= i < 7 ==> #[trigger] cell@[i] < 32,
        byte == 32 ==> cell@ == blank_cell(),
        33 <= byte <= 126 ==> cell@ != blank_cell() && cell@ != missing_cell(),
        (byte < 32 || byte > 126) ==> cell@ == missing_cell(),
{
    let cell: [u8; 7] = match byte {
            32 => [0, 0, 0, 0, 0, 0, 0],
            33 => [ // !
                0b00100, 0b00100, 0b00100, 0b00100, 0b00100, 0b00000, 0b00100,
            ],
            34 => [ // quotation mark
                0b01010, 0b01010, 0b00000, 0b00000, 0b00000, 0b00000, 0b00000,
            ],
            35 => [ // #
                0b01010, 0b01010, 0b11111, 0b01010, 0b11111, 0b01010, 0b01010,
            ],
            36 => [ // $
                0b00100, 0b01111, 0b10100, 0b01110, 0b00101, 0b11110, 0b00100,
            ],
            37 => [ // %
                0b11000, 0b11001, 0b00010, 0b00100, 0b01000, 0b10011, 0b00011,
            ],
            38 => [ // &
                0b01100, 0b10010, 0b10100, 0b01000, 0b10101, 0b10010, 0b01101,
            ],
            39 => [ // apostrophe
                0b00100, 0b00100, 0b00000, 0b00000, 0b00000, 0b00000, 0b00000,
            ],
            40 => [ // left parenthesis
                0b00010, 0b00100, 0b01000, 0b01000, 0b01000, 0b00100, 0b00010,
            ],
            41 => [ // right parenthesis
                0b01000, 0b00100, 0b00010, 0b00010, 0b00010, 0b00100, 0b01000,
            ],
            42 => [ // *
                0b00000, 0b00100, 0b10101, 0b01110, 0b10101, 0b00100, 0b00000,
            ],
            43 => [ // +
                0b00000, 0b00100, 0b00100, 0b11111, 0b00100, 0b00100, 0b00000,
            ],
            44 => [ // ,
                0b00000, 0b00000, 0b00000, 0b00000, 0b00110, 0b00100, 0b01000,
            ],
            45 => [ // -
                0b00000, 0b00000, 0b00000, 0b11111, 0b00000, 0b00000, 0b00000,
            ],
            46 => [ // .
                0b00000, 0b00000, 0b00000, 0b00000, 0b00000, 0b01100, 0b01100,
            ],
            47 => [ // slash
                0b00001, 0b00010, 0b00010, 0b00100, 0b01000, 0b01000, 0b10000,
            ],
            48 => [ // 0
                0b01110, 0b10001, 0b10011, 0b10101, 0b11001, 0b10001, 0b01110,
            ],
            49 => [ // 1
                0b00100, 0b01100, 0b00100, 0b00100, 0b00100, 0b00100, 0b01110,
            ],
            50 => [ // 2
                0b01110, 0b10001, 0b00001, 0b00010, 0b00100, 0b01000, 0b11111,
            ],
            51 => [ // 3
                0b11111, 0b00010, 0b00100, 0b00010, 0b00001, 0b10001, 0b01110,
            ],
            52 => [ // 4
                0b00010, 0b00110, 0b01010, 0b10010, 0b11111, 0b00010, 0b00010,
            ],
            53 => [ // 5
                0b11111, 0b10000, 0b11110, 0b00001, 0b00001, 0b10001, 0b01110,
            ],
            54 => [ // 6
                0b00110, 0b01000, 0b10000, 0b11110, 0b10001, 0b10001, 0b01110,
            ],
            55 => [ // 7
                0b11111, 0b00001, 0b00010, 0b00100, 0b01000, 0b01000, 0b01000,
            ],
            56 => [ // 8
                0b01110, 0b10001, 0b10001, 0b01110, 0b10001, 0b10001, 0b01110,
            ],
            57 => [ // 9
                0b01110, 0b10001, 0b10001, 0b01111, 0b00001, 0b00010, 0b01100,
            ],
            58 => [ // :
                0b00000, 0b01100, 0b01100, 0b00000, 0b01100, 0b01100, 0b00000,
            ],
            59 => [ // ;
                0b00000, 0b01100, 0b01100, 0b00000, 0b00110, 0b00100, 0b01000,
            ],
            60 => [ // <
                0b00010, 0b00100, 0b01000, 0b10000, 0b01000, 0b00100, 0b00010,
            ],
            61 => [ // =
                0b00000, 0b00000, 0b11111, 0b00000, 0b11111, 0b00000, 0b00000,
            ],
            62 => [ // >
                0b01000, 0b00100, 0b00010, 0b00001, 0b00010, 0b00100, 0b01000,
            ],
            63 => [ // ?
                0b01110, 0b10001, 0b00001, 0b00010, 0b00100, 0b00000, 0b00100,
            ],
            64 => [ // @
                0b01110, 0b10001, 0b10111, 0b10101, 0b10111, 0b10000, 0b01110,
            ],
            65 => [ // A
                0b01110, 0b10001, 0b10001, 0b11111, 0b10001, 0b10001, 0b10001,
            ],
            66 => [ // B
                0b11110, 0b10001, 0b10001, 0b11110, 0b10001, 0b10001, 0b11110,
            ],
            67 => [ // C
                0b01111, 0b10000, 0b10000, 0b10000, 0b10000, 0b10000, 0b01111,
            ],
            68 => [ // D
                0b11110, 0b10001, 0b10001, 0b10001, 0b10001, 0b10001, 0b11110,
            ],
            69 => [ // E
                0b11111, 0b10000, 0b10000, 0b11110, 0b10000, 0b10000, 0b11111,
            ],
            70 => [ // F
                0b11111, 0b10000, 0b10000, 0b11110, 0b10000, 0b10000, 0b10000,
            ],
            71 => [ // G
                0b01111, 0b10000, 0b10000, 0b10111, 0b10001, 0b10001, 0b01110,
            ],
            72 => [ // H
                0b10001, 0b10001, 0b10001, 0b11111, 0b10001, 0b10001, 0b10001,
            ],
            73 => [ // I
                0b11111, 0b00100, 0b00100, 0b00100, 0b00100, 0b00100, 0b11111,
            ],
            74 => [ // J
                0b00111, 0b00010, 0b00010, 0b00010, 0b00010, 0b10010, 0b01100,
            ],
            75 => [ // K
                0b10001, 0b10010, 0b10100, 0b11000, 0b10100, 0b10010, 0b10001,
            ],
            76 => [ // L
                0b10000, 0b10000, 0b10000, 0b10000, 0b10000, 0b10000, 0b11111,
            ],
            77 => [ // M
                0b10001, 0b11011, 0b10101, 0b10101, 0b10001, 0b10001, 0b10001,
            ],
            78 => [ // N
                0b10001, 0b11001, 0b10101, 0b10011, 0b10001, 0b10001, 0b10001,
            ],
            79 => [ // O
                0b01110, 0b10001, 0b10001, 0b10001, 0b10001, 0b10001, 0b01110,
            ],
            80 => [ // P
                0b11110, 0b10001, 0b10001, 0b11110, 0b10000, 0b10000, 0b10000,
            ],
            81 => [ // Q
                0b01110, 0b10001, 0b10001, 0b10001, 0b10101, 0b10010, 0b01101,
            ],
            82 => [ // R
                0b11110, 0b10001, 0b10001, 0b11110, 0b10100, 0b10010, 0b10001,
            ],
            83 => [ // S
                0b01111, 0b10000, 0b10000, 0b01110, 0b00001, 0b00001, 0b11110,
            ],
            84 => [ // T
                0b11111, 0b00100, 0b00100, 0b00100, 0b00100, 0b00100, 0b00100,
            ],
            85 => [ // U
                0b10001, 0b10001, 0b10001, 0b10001, 0b10001, 0b10001, 0b01110,
            ],
            86 => [ // V
                0b10001, 0b10001, 0b10001, 0b10001, 0b10001, 0b01010, 0b00100,
            ],
            87 => [ // W
                0b10001, 0b10001, 0b10001, 0b10101, 0b10101, 0b11011, 0b10001,
            ],
            88 => [ // X
                0b10001, 0b10001, 0b01010, 0b00100, 0b01010, 0b10001, 0b10001,
            ],
            89 => [ // Y
                0b10001, 0b10001, 0b01010, 0b00100, 0b00100, 0b00100, 0b00100,
            ],
            90 => [ // Z
                0b11111, 0b00001, 0b00010, 0b00100, 0b01000, 0b10000, 0b11111,
            ],
            91 => [ // left bracket
                0b01110, 0b01000, 0b01000, 0b01000, 0b01000, 0b01000, 0b01110,
            ],
            92 => [ // backslash
                0b10000, 0b01000, 0b01000, 0b00100, 0b00010, 0b00010, 0b00001,
            ],
            93 => [ // right bracket
                0b01110, 0b00010, 0b00010, 0b00010, 0b00010, 0b00010, 0b01110,
            ],
            94 => [ // ^
                0b00100, 0b01010, 0b10001, 0b00000, 0b00000, 0b00000, 0b00000,
            ],
            95 => [ // _
                0b00000, 0b00000, 0b00000, 0b00000, 0b00000, 0b00000, 0b11111,
            ],
            96 => [ // `
                0b01000, 0b00100, 0b00000, 0b00000, 0b00000, 0b00000, 0b00000,
            ],
            97 => [ // a
                0b00000, 0b00000, 0b01110, 0b00001, 0b01111, 0b10001, 0b01111,
            ],
            98 => [ // b
                0b10000, 0b10000, 0b11110, 0b10001, 0b10001, 0b10001, 0b11110,
            ],
            99 => [ // c
                0b00000, 0b00000, 0b01111, 0b10000, 0b10000, 0b10000, 0b01111,
            ],
            100 => [ // d
                0b00001, 0b00001, 0b01111, 0b10001, 0b10001, 0b10001, 0b01111,
            ],
            101 => [ // e
                0b00000, 0b00000, 0b01110, 0b10001, 0b11111, 0b10000, 0b01110,
            ],
            102 => [ // f
                0b00110, 0b01001, 0b01000, 0b11100, 0b01000, 0b01000, 0b01000,
            ],
            103 => [ // g
                0b00000, 0b00000, 0b01111, 0b10001, 0b01111, 0b00001, 0b01110,
            ],
            104 => [ // h
                0b10000, 0b10000, 0b11110, 0b10001, 0b10001, 0b10001, 0b10001,
            ],
            105 => [ // i
                0b00100, 0b00000, 0b01100, 0b00100, 0b00100, 0b00100, 0b01110,
            ],
            106 => [ // j
                0b00010, 0b00000, 0b00110, 0b00010, 0b00010, 0b10010, 0b01100,
            ],
            107 => [ // k
                0b10000, 0b10000, 0b10010, 0b10100, 0b11000, 0b10100, 0b10010,
            ],
            108 => [ // l
                0b01100, 0b00100, 0b00100, 0b00100, 0b00100, 0b00100, 0b01110,
            ],
            109 => [ // m
                0b00000, 0b00000, 0b11010, 0b10101, 0b10101, 0b10101, 0b10101,
            ],
            110 => [ // n
                0b00000, 0b00000, 0b11110, 0b10001, 0b10001, 0b10001, 0b10001,
            ],
            111 => [ // o
                0b00000, 0b00000, 0b01110, 0b10001, 0b10001, 0b10001, 0b01110,
            ],
            112 => [ // p
                0b00000, 0b00000, 0b11110, 0b10001, 0b11110, 0b10000, 0b10000,
            ],
            113 => [ // q
                0b00000, 0b00000, 0b01111, 0b10001, 0b01111, 0b00001, 0b00001,
            ],
            114 => [ // r
                0b00000, 0b00000, 0b10110, 0b11001, 0b10000, 0b10000, 0b10000,
            ],
            115 => [ // s
                0b00000, 0b00000, 0b01111, 0b10000, 0b01110, 0b00001, 0b11110,
            ],
            116 => [ // t
                0b01000, 0b01000, 0b11100, 0b01000, 0b01000, 0b01001, 0b00110,
            ],
            117 => [ // u
                0b00000, 0b00000, 0b10001, 0b10001, 0b10001, 0b10011, 0b01101,
            ],
            118 => [ // v
                0b00000, 0b00000, 0b10001, 0b10001, 0b10001, 0b01010, 0b00100,
            ],
            119 => [ // w
                0b00000, 0b00000, 0b10001, 0b10001, 0b10101, 0b10101, 0b01010,
            ],
            120 => [ // x
                0b00000, 0b00000, 0b10001, 0b01010, 0b00100, 0b01010, 0b10001,
            ],
            121 => [ // y
                0b00000, 0b00000, 0b10001, 0b10001, 0b01111, 0b00001, 0b01110,
            ],
            122 => [ // z
                0b00000, 0b00000, 0b11111, 0b00010, 0b00100, 0b01000, 0b11111,
            ],
            123 => [ // left brace
                0b00110, 0b01000, 0b01000, 0b11000, 0b01000, 0b01000, 0b00110,
            ],
            124 => [ // |
                0b00100, 0b00100, 0b00100, 0b00100, 0b00100, 0b00100, 0b00100,
            ],
            125 => [ // right brace
                0b01100, 0b00010, 0b00010, 0b00011, 0b00010, 0b00010, 0b01100,
            ],
            126 => [ // ~
                0b00000, 0b00000, 0b01000, 0b10101, 0b00010, 0b00000, 0b00000,
            ],
            _ => [
                0b11111, 0b10001, 0b10001, 0b10001, 0b10001, 0b10001, 0b11111,
            ],
        };
    cell
}


/// What a framebuffer is to its contracts: its bytes and its geometry.
pub struct Surface {
    pub bytes: Seq<u8>,
    pub width: int,
    pub height: int,
    pub pitch: int,
    pub format: u32,
}

/// The visible pixel byte `k` of `s` belongs to, if any. Padding between
/// `width * 4` and `pitch`, and everything past the last row, belongs to none.
pub open spec fn pixel_of(s: Surface, k: int) -> Option<(int, int)> {
    if 0 <= k < s.bytes.len() && s.pitch > 0 && k / s.pitch < s.height && k % s.pitch < 4 * s.width {
        Some(((k % s.pitch) / 4, k / s.pitch))
    } else {
        None
    }
}

/// Byte `c` of a pixel of `color` in `format`.
pub open spec fn channel(format: u32, color: Color, c: int) -> u8 {
    if c == 3 {
        0
    } else if format == FB_FORMAT_RGBX8 {
        if c == 0 {
            color.0
        } else if c == 1 {
            color.1
        } else {
            color.2
        }
    } else {
        if c == 0 {
            color.2
        } else if c == 1 {
            color.1
        } else {
            color.0
        }
    }
}

/// The bytes of `s` with every visible pixel in `region` set to `color`, and
/// every other byte as it was.
pub open spec fn painted(s: Surface, region: spec_fn(int, int) -> bool, color: Color) -> Seq<u8> {
    Seq::new(
        s.bytes.len(),
        |k: int|
            match pixel_of(s, k) {
                Some(p) => if region(p.0, p.1) {
                    channel(s.format, color, (k % s.pitch) % 4)
                } else {
                    s.bytes[k]
                },
                None => s.bytes[k],
            },
    )
}

/// The pixels of the rectangle at `(x, y)` of `width` by `height`.
pub open spec fn rect(x: int, y: int, width: int, height: int) -> spec_fn(int, int) -> bool {
    |px: int, py: int| x <= px < x + width && y <= py < y + height
}

/// Painting twice in one colour is painting the union once.
proof fn lemma_paint_union(s: Surface, a: spec_fn(int, int) -> bool, b: spec_fn(int, int) -> bool, color: Color)
    ensures
        painted(Surface { bytes: painted(s, a, color), ..s }, b, color) =~= painted(s, |px: int, py: int| a(px, py) || b(px, py), color),
{
}

/// Only what a region says of visible pixels matters.
proof fn lemma_paint_same(s: Surface, a: spec_fn(int, int) -> bool, b: spec_fn(int, int) -> bool, color: Color)
    requires
        forall|px: int, py: int| 0 <= px < s.width && 0 <= py < s.height ==> #[trigger] a(px, py) == b(px, py),
        s.pitch > 0,
    ensures
        painted(s, a, color) =~= painted(s, b, color),
{
    assert forall|k: int| 0 <= k < s.bytes.len() implies #[trigger] painted(s, a, color)[k] == painted(s, b, color)[k] by {
        if let Some(p) = pixel_of(s, k) {
            vstd::arithmetic::div_mod::lemma_fundamental_div_mod(k, s.pitch);
            assert(0 <= k % s.pitch);
            assert(0 <= p.0 < s.width);
            assert(a(p.0, p.1) == b(p.0, p.1));
        }
    }
}

/// The four bytes at `y * pitch + 4 * x` are exactly the bytes of pixel
/// `(x, y)`.
proof fn lemma_pixel_bytes(s: Surface, x: int, y: int, k: int)
    requires
        0 <= x < s.width,
        0 <= y < s.height,
        4 * s.width <= s.pitch,
        0 <= k < s.bytes.len(),
    ensures
        (pixel_of(s, k) == Some((x, y))) <==> (y * s.pitch + 4 * x <= k < y * s.pitch + 4 * x + 4),
        y * s.pitch + 4 * x <= k < y * s.pitch + 4 * x + 4 ==> (k % s.pitch) % 4 == k - (y * s.pitch + 4 * x),
{
    vstd::arithmetic::div_mod::lemma_fundamental_div_mod(k, s.pitch);
    let q = k / s.pitch;
    let r = k % s.pitch;
    assert(k == s.pitch * q + r);
    assert(s.pitch * q == q * s.pitch) by (nonlinear_arith);
    if y * s.pitch + 4 * x <= k < y * s.pitch + 4 * x + 4 {
        vstd::arithmetic::div_mod::lemma_fundamental_div_mod_converse(k, s.pitch, y, k - y * s.pitch);
        assert((k - y * s.pitch) / 4 == x);
        assert((k - y * s.pitch) % 4 == k - (y * s.pitch + 4 * x));
    }
    if pixel_of(s, k) == Some((x, y)) {
        assert(q == y);
        assert(r / 4 == x);
        assert(4 * x <= r < 4 * x + 4);
    }
}

/// Bounded drawing over a framebuffer's bytes.
pub struct Framebuffer {
    bytes: Vec<u8>,
    width: usize,
    height: usize,
    pitch: usize,
    format: u32,
}

impl View for Framebuffer {
    type V = Surface;

    closed spec fn view(&self) -> Surface {
        Surface {
            bytes: self.bytes@,
            width: self.width as int,
            height: self.height as int,
            pitch: self.pitch as int,
            format: self.format,
        }
    }
}

/// A geometry a framebuffer can be built with over `length` bytes.
pub open spec fn geometry_fits(length: int, width: int, height: int, pitch: int, format: u32) -> bool {
    &&& width > 0
    &&& height > 0
    &&& (format == FB_FORMAT_RGBX8 || format == FB_FORMAT_BGRX8)
    &&& pitch >= width * 4
    &&& pitch * height <= length
}

impl Framebuffer {
    /// The geometry holds together over the bytes.
    pub open spec fn wf(&self) -> bool {
        &&& geometry_fits(self@.bytes.len() as int, self@.width, self@.height, self@.pitch, self@.format)
        &&& self@.bytes.len() <= usize::MAX
    }

    /// A surface over `bytes`, when the geometry describes something that can
    /// be drawn on safely: a known pixel format, a nonempty visible area, a
    /// pitch that holds a row, and bytes that hold every row.
    pub fn new(bytes: Vec<u8>, width: u32, height: u32, pitch: u32, format: u32) -> (r: Option<Framebuffer>)
        ensures
            r is Some <==> geometry_fits(bytes@.len() as int, width as int, height as int, pitch as int, format),
            r matches Some(fb) ==> fb.wf() && fb@ == (Surface {
                bytes: bytes@,
                width: width as int,
                height: height as int,
                pitch: pitch as int,
                format,
            }),
    {
        if width == 0 || height == 0 || !(format == FB_FORMAT_RGBX8 || format == FB_FORMAT_BGRX8) {
            return None;
        }
        let width = width as usize;
        let height = height as usize;
        let pitch = pitch as usize;
        let row = match width.checked_mul(4) {
            Some(row) => row,
            None => {
                proof {
                    assert(pitch <= u32::MAX);
                }
                return None;
            },
        };
        if pitch < row {
            return None;
        }
        let length = bytes.len();
        match pitch.checked_mul(height) {
            Some(size) => if size > length {
                return None;
            },
            None => {
                proof {
                    assert(pitch * height > usize::MAX);
                    assert(bytes@.len() == length);
                }
                return None;
            },
        }
        Some(Framebuffer { bytes, width, height, pitch, format })
    }

    pub fn width(&self) -> (w: usize)
        ensures
            w == self@.width,
    {
        self.width
    }

    pub fn height(&self) -> (h: usize)
        ensures
            h == self@.height,
    {
        self.height
    }

    /// The bytes as they are now.
    pub fn bytes(&self) -> (b: &[u8])
        ensures
            b@ == self@.bytes,
    {
        self.bytes.as_slice()
    }

    /// Colours one pixel; a pixel outside the visible surface is not drawn.
    pub fn put_pixel(&mut self, x: usize, y: usize, color: Color)
        requires
            old(self).wf(),
        ensures
            final(self).wf(),
            final(self)@ == (Surface { bytes: painted(old(self)@, rect(x as int, y as int, 1, 1), color), ..old(self)@ }),
    {
        let ghost s = self@;
        if x >= self.width || y >= self.height {
            proof {
                assert(self@.bytes =~= painted(s, rect(x as int, y as int, 1, 1), color)) by {
                    assert forall|k: int| 0 <= k < s.bytes.len() implies #[trigger] painted(s, rect(x as int, y as int, 1, 1), color)[k] == s.bytes[k] by {
                        if let Some(p) = pixel_of(s, k) {
                            vstd::arithmetic::div_mod::lemma_fundamental_div_mod(k, s.pitch);
                        }
                    }
                }
            }
            return;
        }
        proof {
            let (h, p) = (self.height as int, self.pitch as int);
            assert(y * p <= (h - 1) * p) by (nonlinear_arith)
                requires y <= h - 1, p >= 0;
            assert((h - 1) * p + p == h * p) by (nonlinear_arith);
            assert(p * h == h * p) by (nonlinear_arith);
            assert(y * p + x * 4 + 4 <= h * p);
            assert(h * p <= self.bytes.len());
        }
        let offset = y * self.pitch + x * 4;
        let (r, g, b) = color;
        if self.format == FB_FORMAT_RGBX8 {
            self.bytes.set(offset, r);
            self.bytes.set(offset + 1, g);
            self.bytes.set(offset + 2, b);
            self.bytes.set(offset + 3, 0);
        } else {
            self.bytes.set(offset, b);
            self.bytes.set(offset + 1, g);
            self.bytes.set(offset + 2, r);
            self.bytes.set(offset + 3, 0);
        }
        proof {
            let want = painted(s, rect(x as int, y as int, 1, 1), color);
            assert forall|k: int| 0 <= k < s.bytes.len() implies #[trigger] self.bytes@[k] == want[k] by {
                lemma_pixel_bytes(s, x as int, y as int, k);
                if let Some(p) = pixel_of(s, k) {
                    if p.0 == x && p.1 == y {
                    } else {
                        assert(!(offset <= k < offset + 4));
                    }
                }
            }
            assert(self.bytes@ =~= want);
        }
    }

    /// Fills a rectangle, clipped to the visible surface.
    pub fn fill_rect(&mut self, x: usize, y: usize, width: usize, height: usize, color: Color)
        requires
            old(self).wf(),
        ensures
            final(self).wf(),
            final(self)@ == (Surface { bytes: painted(old(self)@, rect(x as int, y as int, width as int, height as int), color), ..old(self)@ }),
    {
        let ghost s = self@;
        let end_x = if x.saturating_add(width) < self.width { x.saturating_add(width) } else { self.width };
        let end_y = if y.saturating_add(height) < self.height { y.saturating_add(height) } else { self.height };
        let start_x = if x < self.width { x } else { self.width };
        let mut py = if y < self.height { y } else { self.height };
        let ghost start_y = py;
        while py < end_y
            invariant
                self.wf(),
                self@.width == s.width && self@.height == s.height && self@.pitch == s.pitch && self@.format == s.format,
                start_y <= py,
                py <= end_y || py == start_y,
                end_x <= s.width,
                end_y <= s.height,
                self@.bytes == painted(s, |px: int, qy: int| start_x <= px < end_x && start_y <= qy < py, color),
            decreases end_y - py,
        {
            let mut px = start_x;
            while px < end_x
                invariant
                    self.wf(),
                    self@.width == s.width && self@.height == s.height && self@.pitch == s.pitch && self@.format == s.format,
                    start_x <= px,
                    px <= end_x || px == start_x,
                    start_y <= py < end_y,
                    end_x <= s.width,
                    end_y <= s.height,
                    self@.bytes == painted(s, |qx: int, qy: int| (start_x <= qx < end_x && start_y <= qy < py) || (qy == py && start_x <= qx < px), color),
                decreases end_x - px,
            {
                let ghost before = self@;
                self.put_pixel(px, py, color);
                proof {
                    let a = |qx: int, qy: int| (start_x <= qx < end_x && start_y <= qy < py) || (qy == py && start_x <= qx < px);
                    let b = rect(px as int, py as int, 1, 1);
                    assert(before == Surface { bytes: painted(s, a, color), ..s });
                    lemma_paint_union(s, a, b, color);
                    lemma_paint_same(s, |qx: int, qy: int| a(qx, qy) || b(qx, qy), |qx: int, qy: int| (start_x <= qx < end_x && start_y <= qy < py) || (qy == py && start_x <= qx < px + 1), color);
                }
                px = px + 1;
            }
            proof {
                lemma_paint_same(s, |qx: int, qy: int| (start_x <= qx < end_x && start_y <= qy < py) || (qy == py && start_x <= qx < px), |px: int, qy: int| start_x <= px < end_x && start_y <= qy < py + 1, color);
            }
            py = py + 1;
        }
        proof {
            lemma_paint_same(s, |px: int, qy: int| start_x <= px < end_x && start_y <= qy < py, rect(x as int, y as int, width as int, height as int), color);
            assert(self@ == (Surface { bytes: painted(s, rect(x as int, y as int, width as int, height as int), color), ..s }));
        }
    }

    /// Paints the whole visible surface; the padding past each row is left
    /// alone.
    pub fn clear(&mut self, color: Color)
        requires
            old(self).wf(),
        ensures
            final(self).wf(),
            final(self)@ == (Surface { bytes: painted(old(self)@, rect(0, 0, old(self)@.width, old(self)@.height), color), ..old(self)@ }),
    {
        self.fill_rect(0, 0, self.width, self.height, color);
    }
}


/// `a + b`, or `usize::MAX` where that does not fit.
pub open spec fn saturated_sum(a: int, b: int) -> int {
    if a + b > usize::MAX {
        usize::MAX as int
    } else {
        a + b
    }
}

fn times(a: usize, b: usize) -> (r: usize)
    ensures
        r == saturated_product(a as int, b as int),
{
    match a.checked_mul(b) {
        Some(r) => r,
        None => usize::MAX,
    }
}

/// Where the walk of `art` is when it reaches byte `i`: column and row.
pub open spec fn grid_position(art: Seq<u8>, i: int) -> (int, int) {
    let (col, _, rows) = grid_walk(art.subrange(0, i));
    (col, rows - 1)
}

/// The pixels of the `@` cells of `art`, each a `cell`-sized square placed
/// by its column and row from the origin.
pub open spec fn grid_region(art: Seq<u8>, x: int, y: int, cell: int) -> spec_fn(int, int) -> bool {
    |px: int, py: int|
        exists|i: int|
            #![trigger grid_position(art, i)]
            0 <= i < art.len() && art[i] == 64 && rect(
                saturated_sum(x, saturated_product(grid_position(art, i).0, cell)),
                saturated_sum(y, saturated_product(grid_position(art, i).1, cell)),
                cell,
                cell,
            )(px, py)
}

/// Whether column `col` of a glyph row is lit.
pub open spec fn lit(bits: u8, col: u8) -> bool {
    bits & (1u8 << (4u8 - col) as u8) != 0
}

/// The pixels of one glyph cell drawn at `(x, y)` at `scale`.
pub open spec fn cell_region(cell: Seq<u8>, x: int, y: int, scale: int) -> spec_fn(int, int) -> bool {
    |px: int, py: int|
        exists|row: int, col: u8|
            #![trigger lit(cell[row], col)]
            0 <= row < 7 && col < 5 && lit(cell[row], col) && rect(
                saturated_sum(x, col * scale),
                saturated_sum(y, row * scale),
                scale,
                scale,
            )(px, py)
}

/// Where character `i` of a text drawn from `x` at `scale` starts.
pub open spec fn text_cursor(x: int, i: int, scale: int) -> int {
    saturated_sum(x, i * (ADVANCE * scale))
}

/// The pixels of `text` drawn at `(x, y)` at `scale`.
pub open spec fn text_region(text: Seq<u8>, x: int, y: int, scale: int) -> spec_fn(int, int) -> bool {
    |px: int, py: int|
        exists|i: int|
            #![trigger text[i]]
            0 <= i < text.len() && cell_region(glyph_cell(text[i]), text_cursor(x, i, scale), y, scale)(px, py)
}

/// Painting `b` after `a` is painting `c`, when `c` is their union.
proof fn lemma_paint_extend(s: Surface, a: spec_fn(int, int) -> bool, b: spec_fn(int, int) -> bool, c: spec_fn(int, int) -> bool, color: Color)
    requires
        s.pitch > 0,
        forall|px: int, py: int| #[trigger] c(px, py) == (a(px, py) || b(px, py)),
    ensures
        painted(Surface { bytes: painted(s, a, color), ..s }, b, color) == painted(s, c, color),
{
    lemma_paint_union(s, a, b, color);
    lemma_paint_same(s, |px: int, py: int| a(px, py) || b(px, py), c, color);
}

/// Painting nothing changes nothing.
proof fn lemma_paint_nothing(s: Surface, a: spec_fn(int, int) -> bool, color: Color)
    requires
        forall|px: int, py: int| !#[trigger] a(px, py),
    ensures
        painted(s, a, color) =~= s.bytes,
{
}

impl Framebuffer {
    /// Renders the `@` cells of `art` as `cell`-sized squares; every other
    /// byte but a line break advances one column.
    pub fn draw_ascii_grid(&mut self, art: &[u8], origin_x: usize, origin_y: usize, cell: usize, foreground: Color)
        requires
            old(self).wf(),
        ensures
            final(self).wf(),
            final(self)@ == (Surface { bytes: painted(old(self)@, grid_region(art@, origin_x as int, origin_y as int, cell as int), foreground), ..old(self)@ }),
    {
        let ghost s = self@;
        let ghost whole = grid_region(art@, origin_x as int, origin_y as int, cell as int);
        if cell == 0 {
            proof {
                lemma_paint_nothing(s, whole, foreground);
            }
            return;
        }
        let mut col: usize = 0;
        let mut row: usize = 0;
        let mut i: usize = 0;
        proof {
            lemma_paint_nothing(s, |px: int, py: int| false, foreground);
            assert(art@.subrange(0, 0) =~= Seq::<u8>::empty());
        }
        while i < art.len()
            invariant
                self.wf(),
                self@.width == s.width && self@.height == s.height && self@.pitch == s.pitch && self@.format == s.format,
                self@.bytes.len() == s.bytes.len(),
                i <= art.len(),
                cell > 0,
                (col as int, row as int) == grid_position(art@, i as int),
                self@.bytes == painted(s, |px: int, py: int| exists|j: int| #![trigger grid_position(art@, j)] 0 <= j < i && art@[j] == 64 && rect(
                    saturated_sum(origin_x as int, saturated_product(grid_position(art@, j).0, cell as int)),
                    saturated_sum(origin_y as int, saturated_product(grid_position(art@, j).1, cell as int)),
                    cell as int,
                    cell as int,
                )(px, py), foreground),
            decreases art.len() - i,
        {
            let ghost before = self@;
            let ghost so_far = |px: int, py: int| exists|j: int| #![trigger grid_position(art@, j)] 0 <= j < i && art@[j] == 64 && rect(
                    saturated_sum(origin_x as int, saturated_product(grid_position(art@, j).0, cell as int)),
                    saturated_sum(origin_y as int, saturated_product(grid_position(art@, j).1, cell as int)),
                    cell as int,
                    cell as int,
                )(px, py);
            let ghost next = |px: int, py: int| exists|j: int| #![trigger grid_position(art@, j)] 0 <= j < i + 1 && art@[j] == 64 && rect(
                    saturated_sum(origin_x as int, saturated_product(grid_position(art@, j).0, cell as int)),
                    saturated_sum(origin_y as int, saturated_product(grid_position(art@, j).1, cell as int)),
                    cell as int,
                    cell as int,
                )(px, py);
            proof {
                let prefix = art@.subrange(0, i + 1);
                assert(prefix.drop_last() =~= art@.subrange(0, i as int));
                lemma_grid_walk_bounds(art@.subrange(0, i as int));
            }
            if art[i] == 10 {
                col = 0;
                row = row.saturating_add(1);
                proof {
                    assert forall|px: int, py: int| #[trigger] next(px, py) == so_far(px, py) by {
                        if next(px, py) {
                            let j = choose|j: int| #![trigger grid_position(art@, j)] 0 <= j < i + 1 && art@[j] == 64 && rect(
                                saturated_sum(origin_x as int, saturated_product(grid_position(art@, j).0, cell as int)),
                                saturated_sum(origin_y as int, saturated_product(grid_position(art@, j).1, cell as int)),
                                cell as int,
                                cell as int,
                            )(px, py);
                            assert(j != i);
                        }
                    }
                    lemma_paint_same(s, so_far, next, foreground);
                }
            } else if art[i] == 64 {
                let x = origin_x.saturating_add(times(col, cell));
                let y = origin_y.saturating_add(times(row, cell));
                self.fill_rect(x, y, cell, cell, foreground);
                col = col.saturating_add(1);
                proof {
                    let here = rect(x as int, y as int, cell as int, cell as int);
                    assert forall|px: int, py: int| #[trigger] next(px, py) == (so_far(px, py) || here(px, py)) by {
                        if next(px, py) {
                            let j = choose|j: int| #![trigger grid_position(art@, j)] 0 <= j < i + 1 && art@[j] == 64 && rect(
                                saturated_sum(origin_x as int, saturated_product(grid_position(art@, j).0, cell as int)),
                                saturated_sum(origin_y as int, saturated_product(grid_position(art@, j).1, cell as int)),
                                cell as int,
                                cell as int,
                            )(px, py);
                            if j < i {
                                assert(so_far(px, py));
                            }
                        }
                        if here(px, py) {
                            assert(grid_position(art@, i as int) == (col as int - 1, row as int));
                        }
                        if so_far(px, py) {
                            let j = choose|j: int| #![trigger grid_position(art@, j)] 0 <= j < i && art@[j] == 64 && rect(
                                saturated_sum(origin_x as int, saturated_product(grid_position(art@, j).0, cell as int)),
                                saturated_sum(origin_y as int, saturated_product(grid_position(art@, j).1, cell as int)),
                                cell as int,
                                cell as int,
                            )(px, py);
                            assert(next(px, py));
                        }
                    }
                    lemma_paint_extend(s, so_far, here, next, foreground);
                }
            } else {
                col = col.saturating_add(1);
                proof {
                    assert forall|px: int, py: int| #[trigger] next(px, py) == so_far(px, py) by {
                        if next(px, py) {
                            let j = choose|j: int| #![trigger grid_position(art@, j)] 0 <= j < i + 1 && art@[j] == 64 && rect(
                                saturated_sum(origin_x as int, saturated_product(grid_position(art@, j).0, cell as int)),
                                saturated_sum(origin_y as int, saturated_product(grid_position(art@, j).1, cell as int)),
                                cell as int,
                                cell as int,
                            )(px, py);
                            assert(j != i);
                        }
                    }
                    lemma_paint_same(s, so_far, next, foreground);
                }
            }
            i = i + 1;
        }
        proof {
            assert forall|px: int, py: int| #[trigger] whole(px, py) == (exists|j: int| #![trigger grid_position(art@, j)] 0 <= j < i && art@[j] == 64 && rect(
                    saturated_sum(origin_x as int, saturated_product(grid_position(art@, j).0, cell as int)),
                    saturated_sum(origin_y as int, saturated_product(grid_position(art@, j).1, cell as int)),
                    cell as int,
                    cell as int,
                )(px, py)) by {}
            lemma_paint_same(s, whole, |px: int, py: int| exists|j: int| #![trigger grid_position(art@, j)] 0 <= j < i && art@[j] == 64 && rect(
                    saturated_sum(origin_x as int, saturated_product(grid_position(art@, j).0, cell as int)),
                    saturated_sum(origin_y as int, saturated_product(grid_position(art@, j).1, cell as int)),
                    cell as int,
                    cell as int,
                )(px, py), foreground);
        }
    }
}


/// The lit cells of a glyph up to row `row`, column `col`.
pub open spec fn cell_region_upto(cell: Seq<u8>, x: int, y: int, scale: int, row: int, col: int) -> spec_fn(int, int) -> bool {
    |px: int, py: int|
        exists|r: int, c: u8|
            #![trigger lit(cell[r], c)]
            0 <= r < 7 && c < 5 && (r < row || (r == row && c < col)) && lit(cell[r], c) && rect(
                saturated_sum(x, c * scale),
                saturated_sum(y, r * scale),
                scale,
                scale,
            )(px, py)
}

/// The characters of a text before the `n`th.
pub open spec fn text_region_upto(text: Seq<u8>, x: int, y: int, scale: int, n: int) -> spec_fn(int, int) -> bool {
    |px: int, py: int|
        exists|i: int|
            #![trigger text[i]]
            0 <= i < n && cell_region(glyph_cell(text[i]), text_cursor(x, i, scale), y, scale)(px, py)
}

impl Framebuffer {
    fn draw_cell(&mut self, cell: [u8; 7], x: usize, y: usize, scale: usize, color: Color)
        requires
            old(self).wf(),
            scale * ADVANCE <= usize::MAX,
        ensures
            final(self).wf(),
            final(self)@ == (Surface { bytes: painted(old(self)@, cell_region(cell@, x as int, y as int, scale as int), color), ..old(self)@ }),
    {
        let ghost s = self@;
        let ghost c = cell@;
        proof {
            lemma_paint_nothing(s, cell_region_upto(c, x as int, y as int, scale as int, 0, 0), color);
        }
        let mut row: usize = 0;
        while row < 7
            invariant
                self.wf(),
                self@.width == s.width && self@.height == s.height && self@.pitch == s.pitch && self@.format == s.format,
                self@.bytes.len() == s.bytes.len(),
                row <= 7,
                c == cell@,
                scale * ADVANCE <= usize::MAX,
                self@.bytes == painted(s, cell_region_upto(c, x as int, y as int, scale as int, row as int, 0), color),
            decreases 7 - row,
        {
            let bits = cell[row];
            let mut col: u8 = 0;
            while col < 5
                invariant
                    self.wf(),
                    self@.width == s.width && self@.height == s.height && self@.pitch == s.pitch && self@.format == s.format,
                    self@.bytes.len() == s.bytes.len(),
                    row < 7,
                    col <= 5,
                    bits == c[row as int],
                    c == cell@,
                    scale * ADVANCE <= usize::MAX,
                    self@.bytes == painted(s, cell_region_upto(c, x as int, y as int, scale as int, row as int, col as int), color),
                decreases 5 - col,
            {
                let ghost so_far = cell_region_upto(c, x as int, y as int, scale as int, row as int, col as int);
                let ghost next = cell_region_upto(c, x as int, y as int, scale as int, row as int, col + 1);
                proof {
                    assert(col * scale <= scale * ADVANCE) by (nonlinear_arith)
                        requires col < 5;
                    assert(row * scale <= scale * ADVANCE) by (nonlinear_arith)
                        requires row < 7;
                }
                if bits & (1u8 << (4 - col)) != 0 {
                    let px = x.saturating_add(col as usize * scale);
                    let py = y.saturating_add(row * scale);
                    self.fill_rect(px, py, scale, scale, color);
                    proof {
                        let here = rect(px as int, py as int, scale as int, scale as int);
                        assert(lit(c[row as int], col));
                        assert forall|qx: int, qy: int| #[trigger] next(qx, qy) == (so_far(qx, qy) || here(qx, qy)) by {
                            if next(qx, qy) {
                                let (r, k) = choose|r: int, k: u8| #![trigger lit(c[r], k)] 0 <= r < 7 && k < 5 && (r < row || (r == row && k < col + 1)) && lit(c[r], k) && rect(
                                    saturated_sum(x as int, k * scale),
                                    saturated_sum(y as int, r * scale),
                                    scale as int,
                                    scale as int,
                                )(qx, qy);
                                if !(r == row && k == col) {
                                    assert(so_far(qx, qy));
                                }
                            }
                            if so_far(qx, qy) {
                                let (r, k) = choose|r: int, k: u8| #![trigger lit(c[r], k)] 0 <= r < 7 && k < 5 && (r < row || (r == row && k < col)) && lit(c[r], k) && rect(
                                    saturated_sum(x as int, k * scale),
                                    saturated_sum(y as int, r * scale),
                                    scale as int,
                                    scale as int,
                                )(qx, qy);
                                assert(next(qx, qy));
                            }
                            if here(qx, qy) {
                                assert(lit(c[row as int], col));
                                assert(next(qx, qy));
                            }
                        }
                        lemma_paint_extend(s, so_far, here, next, color);
                    }
                } else {
                    proof {
                        assert(!lit(c[row as int], col));
                        assert forall|qx: int, qy: int| #[trigger] next(qx, qy) == so_far(qx, qy) by {
                            if next(qx, qy) {
                                let (r, k) = choose|r: int, k: u8| #![trigger lit(c[r], k)] 0 <= r < 7 && k < 5 && (r < row || (r == row && k < col + 1)) && lit(c[r], k) && rect(
                                    saturated_sum(x as int, k * scale),
                                    saturated_sum(y as int, r * scale),
                                    scale as int,
                                    scale as int,
                                )(qx, qy);
                                assert(!(r == row && k == col));
                                assert(so_far(qx, qy));
                            }
                            if so_far(qx, qy) {
                                let (r, k) = choose|r: int, k: u8| #![trigger lit(c[r], k)] 0 <= r < 7 && k < 5 && (r < row || (r == row && k < col)) && lit(c[r], k) && rect(
                                    saturated_sum(x as int, k * scale),
                                    saturated_sum(y as int, r * scale),
                                    scale as int,
                                    scale as int,
                                )(qx, qy);
                                assert(next(qx, qy));
                            }
                        }
                        lemma_paint_same(s, so_far, next, color);
                    }
                }
                col = col + 1;
            }
            proof {
                let a = cell_region_upto(c, x as int, y as int, scale as int, row as int, 5);
                let b = cell_region_upto(c, x as int, y as int, scale as int, row + 1, 0);
                assert forall|qx: int, qy: int| #[trigger] a(qx, qy) == b(qx, qy) by {
                    if a(qx, qy) {
                        let (r, k) = choose|r: int, k: u8| #![trigger lit(c[r], k)] 0 <= r < 7 && k < 5 && (r < row || (r == row && k < 5)) && lit(c[r], k) && rect(
                            saturated_sum(x as int, k * scale),
                            saturated_sum(y as int, r * scale),
                            scale as int,
                            scale as int,
                        )(qx, qy);
                        assert(b(qx, qy));
                    }
                    if b(qx, qy) {
                        let (r, k) = choose|r: int, k: u8| #![trigger lit(c[r], k)] 0 <= r < 7 && k < 5 && (r < row + 1 || (r == row + 1 && k < 0)) && lit(c[r], k) && rect(
                            saturated_sum(x as int, k * scale),
                            saturated_sum(y as int, r * scale),
                            scale as int,
                            scale as int,
                        )(qx, qy);
                        assert(a(qx, qy));
                    }
                }
                lemma_paint_same(s, a, b, color);
            }
            row = row + 1;
        }
        proof {
            let a = cell_region_upto(c, x as int, y as int, scale as int, 7, 0);
            let b = cell_region(c, x as int, y as int, scale as int);
            assert forall|qx: int, qy: int| #[trigger] a(qx, qy) == b(qx, qy) by {
                if a(qx, qy) {
                    let (r, k) = choose|r: int, k: u8| #![trigger lit(c[r], k)] 0 <= r < 7 && k < 5 && (r < 7 || (r == 7 && k < 0)) && lit(c[r], k) && rect(
                        saturated_sum(x as int, k * scale),
                        saturated_sum(y as int, r * scale),
                        scale as int,
                        scale as int,
                    )(qx, qy);
                    assert(b(qx, qy));
                }
                if b(qx, qy) {
                    let (r, k) = choose|r: int, k: u8| #![trigger lit(c[r], k)] 0 <= r < 7 && k < 5 && lit(c[r], k) && rect(
                        saturated_sum(x as int, k * scale),
                        saturated_sum(y as int, r * scale),
                        scale as int,
                        scale as int,
                    )(qx, qy);
                    assert(a(qx, qy));
                }
            }
            lemma_paint_same(s, a, b, color);
        }
    }

    /// Draws `text` in the 5x7 font from `(x, y)` at `scale`, one advance per
    /// byte; what falls outside the surface is clipped.
    pub fn draw_text(&mut self, text: &[u8], x: usize, y: usize, scale: usize, color: Color)
        requires
            old(self).wf(),
            scale * ADVANCE <= usize::MAX,
        ensures
            final(self).wf(),
            final(self)@ == (Surface { bytes: painted(old(self)@, text_region(text@, x as int, y as int, scale as int), color), ..old(self)@ }),
    {
        let ghost s = self@;
        let step = ADVANCE * scale;
        let mut cursor = x;
        let mut i: usize = 0;
        proof {
            lemma_paint_nothing(s, text_region_upto(text@, x as int, y as int, scale as int, 0), color);
            assert(0 * (ADVANCE * scale) == 0) by (nonlinear_arith);
        }
        while i < text.len()
            invariant
                self.wf(),
                self@.width == s.width && self@.height == s.height && self@.pitch == s.pitch && self@.format == s.format,
                self@.bytes.len() == s.bytes.len(),
                i <= text.len(),
                step == ADVANCE * scale,
                scale * ADVANCE <= usize::MAX,
                cursor == text_cursor(x as int, i as int, scale as int),
                self@.bytes == painted(s, text_region_upto(text@, x as int, y as int, scale as int, i as int), color),
            decreases text.len() - i,
        {
            let cell = glyph(text[i]);
            self.draw_cell(cell, cursor, y, scale, color);
            proof {
                let so_far = text_region_upto(text@, x as int, y as int, scale as int, i as int);
                let next = text_region_upto(text@, x as int, y as int, scale as int, i + 1);
                let here = cell_region(cell@, cursor as int, y as int, scale as int);
                assert forall|qx: int, qy: int| #[trigger] next(qx, qy) == (so_far(qx, qy) || here(qx, qy)) by {
                    if next(qx, qy) {
                        let j = choose|j: int| #![trigger text@[j]] 0 <= j < i + 1 && cell_region(glyph_cell(text@[j]), text_cursor(x as int, j, scale as int), y as int, scale as int)(qx, qy);
                        if j < i {
                            assert(so_far(qx, qy));
                        }
                    }
                    if so_far(qx, qy) {
                        let j = choose|j: int| #![trigger text@[j]] 0 <= j < i && cell_region(glyph_cell(text@[j]), text_cursor(x as int, j, scale as int), y as int, scale as int)(qx, qy);
                        assert(next(qx, qy));
                    }
                    if here(qx, qy) {
                        assert(text@[i as int] == text@[i as int]);
                        assert(next(qx, qy));
                    }
                }
                lemma_paint_extend(s, so_far, here, next, color);
                assert((i + 1) * (ADVANCE * scale) == i * (ADVANCE * scale) + ADVANCE * scale) by (nonlinear_arith);
            }
            cursor = cursor.saturating_add(step);
            i = i + 1;
        }
        proof {
            lemma_paint_same(s, text_region_upto(text@, x as int, y as int, scale as int, i as int), text_region(text@, x as int, y as int, scale as int), color);
        }
    }
}

} // verus!
