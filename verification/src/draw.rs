//! Debug-overlay drawing primitives: rectangles and a small bitmap font.
//!
//! The font is a compact 5x7 glyph table. Text is uppercased before lookup.
//! Each glyph is 5 columns stored as one byte per column; bit `n` of a
//! column is the pixel in row `n`, top to bottom.

use vstd::prelude::*;
use crate::frame::{Frame, Pixel, frame_dims};

verus! {

/// Width of a glyph in pixels, excluding inter-character spacing.
pub const GLYPH_WIDTH: u32 = 5;
/// Height of a glyph in pixels.
pub const GLYPH_HEIGHT: u32 = 7;
/// Pixels between glyph cells.
pub const GLYPH_SPACING: u32 = 1;

/// ASCII uppercase of `c`; every other character is unchanged.
pub open spec fn ascii_upper(c: char) -> char {
    if 'a' <= c && c <= 'z' {
        ((c as u32) - 32) as char
    } else {
        c
    }
}

/// The glyph table, keyed by uppercase character.
pub open spec fn glyph_table(c: char) -> Option<[u8; 5]> {
    match c {
        ' ' => Some([0x00, 0x00, 0x00, 0x00, 0x00]),
        '0' => Some([0x3E, 0x51, 0x49, 0x45, 0x3E]),
        '1' => Some([0x00, 0x42, 0x7F, 0x40, 0x00]),
        '2' => Some([0x42, 0x61, 0x51, 0x49, 0x46]),
        '3' => Some([0x21, 0x41, 0x45, 0x4B, 0x31]),
        '4' => Some([0x18, 0x14, 0x12, 0x7F, 0x10]),
        '5' => Some([0x27, 0x45, 0x45, 0x45, 0x39]),
        '6' => Some([0x3C, 0x4A, 0x49, 0x49, 0x30]),
        '7' => Some([0x01, 0x71, 0x09, 0x05, 0x03]),
        '8' => Some([0x36, 0x49, 0x49, 0x49, 0x36]),
        '9' => Some([0x06, 0x49, 0x49, 0x29, 0x1E]),
        'A' => Some([0x7E, 0x11, 0x11, 0x11, 0x7E]),
        'B' => Some([0x7F, 0x49, 0x49, 0x49, 0x36]),
        'C' => Some([0x3E, 0x41, 0x41, 0x41, 0x22]),
        'D' => Some([0x7F, 0x41, 0x41, 0x22, 0x1C]),
        'E' => Some([0x7F, 0x49, 0x49, 0x49, 0x41]),
        'F' => Some([0x7F, 0x09, 0x09, 0x09, 0x01]),
        'G' => Some([0x3E, 0x41, 0x49, 0x49, 0x7A]),
        'H' => Some([0x7F, 0x08, 0x08, 0x08, 0x7F]),
        'I' => Some([0x00, 0x41, 0x7F, 0x41, 0x00]),
        'J' => Some([0x20, 0x40, 0x41, 0x3F, 0x01]),
        'K' => Some([0x7F, 0x08, 0x14, 0x22, 0x41]),
        'L' => Some([0x7F, 0x40, 0x40, 0x40, 0x40]),
        'M' => Some([0x7F, 0x02, 0x0C, 0x02, 0x7F]),
        'N' => Some([0x7F, 0x04, 0x08, 0x10, 0x7F]),
        'O' => Some([0x3E, 0x41, 0x41, 0x41, 0x3E]),
        'P' => Some([0x7F, 0x09, 0x09, 0x09, 0x06]),
        'Q' => Some([0x3E, 0x41, 0x51, 0x21, 0x5E]),
        'R' => Some([0x7F, 0x09, 0x19, 0x29, 0x46]),
        'S' => Some([0x46, 0x49, 0x49, 0x49, 0x31]),
        'T' => Some([0x01, 0x01, 0x7F, 0x01, 0x01]),
        'U' => Some([0x3F, 0x40, 0x40, 0x40, 0x3F]),
        'V' => Some([0x1F, 0x20, 0x40, 0x20, 0x1F]),
        'W' => Some([0x3F, 0x40, 0x38, 0x40, 0x3F]),
        'X' => Some([0x63, 0x14, 0x08, 0x14, 0x63]),
        'Y' => Some([0x07, 0x08, 0x70, 0x08, 0x07]),
        'Z' => Some([0x61, 0x51, 0x49, 0x45, 0x43]),
        '.' => Some([0x00, 0x60, 0x60, 0x00, 0x00]),
        ',' => Some([0x00, 0x50, 0x30, 0x00, 0x00]),
        ':' => Some([0x00, 0x36, 0x36, 0x00, 0x00]),
        ';' => Some([0x00, 0x56, 0x36, 0x00, 0x00]),
        '/' => Some([0x20, 0x10, 0x08, 0x04, 0x02]),
        '\\' => Some([0x02, 0x04, 0x08, 0x10, 0x20]),
        '%' => Some([0x23, 0x13, 0x08, 0x64, 0x62]),
        '(' => Some([0x00, 0x1C, 0x22, 0x41, 0x00]),
        ')' => Some([0x00, 0x41, 0x22, 0x1C, 0x00]),
        '[' => Some([0x00, 0x7F, 0x41, 0x41, 0x00]),
        ']' => Some([0x00, 0x41, 0x41, 0x7F, 0x00]),
        '-' => Some([0x08, 0x08, 0x08, 0x08, 0x08]),
        '_' => Some([0x40, 0x40, 0x40, 0x40, 0x40]),
        '=' => Some([0x14, 0x14, 0x14, 0x14, 0x14]),
        '+' => Some([0x08, 0x08, 0x3E, 0x08, 0x08]),
        '*' => Some([0x14, 0x08, 0x3E, 0x08, 0x14]),
        '#' => Some([0x14, 0x7F, 0x14, 0x7F, 0x14]),
        '?' => Some([0x02, 0x01, 0x51, 0x09, 0x06]),
        '!' => Some([0x00, 0x00, 0x5F, 0x00, 0x00]),
        '<' => Some([0x08, 0x14, 0x22, 0x41, 0x00]),
        '>' => Some([0x00, 0x41, 0x22, 0x14, 0x08]),
        '\'' => Some([0x00, 0x07, 0x00, 0x00, 0x00]),
        _ => None,
    }
}

/// Column bitmaps for a character, or `None` when unmapped. Lowercase ASCII
/// letters use their uppercase glyph.
pub fn glyph(ch: char) -> (r: Option<[u8; 5]>)
    ensures
        r == glyph_table(ascii_upper(ch)),
{
    let bitmap = match ch {
        ' ' => [0x00, 0x00, 0x00, 0x00, 0x00],
        '0' => [0x3E, 0x51, 0x49, 0x45, 0x3E],
        '1' => [0x00, 0x42, 0x7F, 0x40, 0x00],
        '2' => [0x42, 0x61, 0x51, 0x49, 0x46],
        '3' => [0x21, 0x41, 0x45, 0x4B, 0x31],
        '4' => [0x18, 0x14, 0x12, 0x7F, 0x10],
        '5' => [0x27, 0x45, 0x45, 0x45, 0x39],
        '6' => [0x3C, 0x4A, 0x49, 0x49, 0x30],
        '7' => [0x01, 0x71, 0x09, 0x05, 0x03],
        '8' => [0x36, 0x49, 0x49, 0x49, 0x36],
        '9' => [0x06, 0x49, 0x49, 0x29, 0x1E],
        'A' | 'a' => [0x7E, 0x11, 0x11, 0x11, 0x7E],
        'B' | 'b' => [0x7F, 0x49, 0x49, 0x49, 0x36],
        'C' | 'c' => [0x3E, 0x41, 0x41, 0x41, 0x22],
        'D' | 'd' => [0x7F, 0x41, 0x41, 0x22, 0x1C],
        'E' | 'e' => [0x7F, 0x49, 0x49, 0x49, 0x41],
        'F' | 'f' => [0x7F, 0x09, 0x09, 0x09, 0x01],
        'G' | 'g' => [0x3E, 0x41, 0x49, 0x49, 0x7A],
        'H' | 'h' => [0x7F, 0x08, 0x08, 0x08, 0x7F],
        'I' | 'i' => [0x00, 0x41, 0x7F, 0x41, 0x00],
        'J' | 'j' => [0x20, 0x40, 0x41, 0x3F, 0x01],
        'K' | 'k' => [0x7F, 0x08, 0x14, 0x22, 0x41],
        'L' | 'l' => [0x7F, 0x40, 0x40, 0x40, 0x40],
        'M' | 'm' => [0x7F, 0x02, 0x0C, 0x02, 0x7F],
        'N' | 'n' => [0x7F, 0x04, 0x08, 0x10, 0x7F],
        'O' | 'o' => [0x3E, 0x41, 0x41, 0x41, 0x3E],
        'P' | 'p' => [0x7F, 0x09, 0x09, 0x09, 0x06],
        'Q' | 'q' => [0x3E, 0x41, 0x51, 0x21, 0x5E],
        'R' | 'r' => [0x7F, 0x09, 0x19, 0x29, 0x46],
        'S' | 's' => [0x46, 0x49, 0x49, 0x49, 0x31],
        'T' | 't' => [0x01, 0x01, 0x7F, 0x01, 0x01],
        'U' | 'u' => [0x3F, 0x40, 0x40, 0x40, 0x3F],
        'V' | 'v' => [0x1F, 0x20, 0x40, 0x20, 0x1F],
        'W' | 'w' => [0x3F, 0x40, 0x38, 0x40, 0x3F],
        'X' | 'x' => [0x63, 0x14, 0x08, 0x14, 0x63],
        'Y' | 'y' => [0x07, 0x08, 0x70, 0x08, 0x07],
        'Z' | 'z' => [0x61, 0x51, 0x49, 0x45, 0x43],
        '.' => [0x00, 0x60, 0x60, 0x00, 0x00],
        ',' => [0x00, 0x50, 0x30, 0x00, 0x00],
        ':' => [0x00, 0x36, 0x36, 0x00, 0x00],
        ';' => [0x00, 0x56, 0x36, 0x00, 0x00],
        '/' => [0x20, 0x10, 0x08, 0x04, 0x02],
        '\\' => [0x02, 0x04, 0x08, 0x10, 0x20],
        '%' => [0x23, 0x13, 0x08, 0x64, 0x62],
        '(' => [0x00, 0x1C, 0x22, 0x41, 0x00],
        ')' => [0x00, 0x41, 0x22, 0x1C, 0x00],
        '[' => [0x00, 0x7F, 0x41, 0x41, 0x00],
        ']' => [0x00, 0x41, 0x41, 0x7F, 0x00],
        '-' => [0x08, 0x08, 0x08, 0x08, 0x08],
        '_' => [0x40, 0x40, 0x40, 0x40, 0x40],
        '=' => [0x14, 0x14, 0x14, 0x14, 0x14],
        '+' => [0x08, 0x08, 0x3E, 0x08, 0x08],
        '*' => [0x14, 0x08, 0x3E, 0x08, 0x14],
        '#' => [0x14, 0x7F, 0x14, 0x7F, 0x14],
        '?' => [0x02, 0x01, 0x51, 0x09, 0x06],
        '!' => [0x00, 0x00, 0x5F, 0x00, 0x00],
        '<' => [0x08, 0x14, 0x22, 0x41, 0x00],
        '>' => [0x00, 0x41, 0x22, 0x14, 0x08],
        '\'' => [0x00, 0x07, 0x00, 0x00, 0x00],
        _ => {
            return None;
        },
    };
    Some(bitmap)
}

/// Pixel width of a line of `chars` characters at `scale`: one glyph cell
/// per character, less the spacing after the last one.
pub open spec fn text_width_spec(chars: int, scale: int) -> int {
    if chars == 0 {
        0
    } else {
        chars * 6 * scale - scale
    }
}

/// Pixel width of `text` at `scale`, including inter-character spacing.
pub fn text_width(text: &str, scale: u32) -> (r: u32)
    requires
        text@.len() * 6 <= u32::MAX,
        text@.len() * 6 * (scale as int) <= u32::MAX,
    ensures
        r == text_width_spec(text@.len() as int, scale as int),
{
    let count = text.unicode_len();
    if count == 0 {
        return 0;
    }
    proof {
        assert(count * 6 * (scale as int) >= scale) by (nonlinear_arith)
            requires count >= 1;
    }
    let count = count as u32;
    assert(count * 6 * scale <= u32::MAX);
    (count * (GLYPH_WIDTH + GLYPH_SPACING) * scale).saturating_sub(GLYPH_SPACING * scale)
}

/// Pixel height of a line at `scale`.
pub fn text_height(scale: u32) -> (r: u32)
    requires
        7 * (scale as int) <= u32::MAX,
    ensures
        r == 7 * scale,
{
    GLYPH_HEIGHT * scale
}

/// The `scale` by `scale` block of points whose top-left corner is
/// `(px, py)`: the first `rows` rows of it, each row left to right.
pub open spec fn block_points(px: int, py: int, scale: int, rows: int) -> Seq<(i64, i64)>
    decreases rows,
{
    if rows <= 0 {
        seq![]
    } else {
        block_points(px, py, scale, rows - 1) + block_row(px, py + rows - 1, scale)
    }
}

/// The first `n` points of the row starting at `(px, py)`.
pub open spec fn block_row(px: int, py: int, n: int) -> Seq<(i64, i64)>
    decreases n,
{
    if n <= 0 {
        seq![]
    } else {
        block_row(px, py, n - 1).push(((px + n - 1) as i64, py as i64))
    }
}

/// Is bit `row` of a glyph column set?
pub open spec fn column_bit(column: u8, row: int) -> bool {
    (column >> (row as u8)) & 1u8 == 1u8
}

/// Points of the first `rows` rows of column `col` of a glyph drawn with
/// its top-left corner at `(ox, oy)`.
pub open spec fn column_points(column: u8, col: int, ox: int, oy: int, scale: int, rows: int) -> Seq<(i64, i64)>
    decreases rows,
{
    if rows <= 0 {
        seq![]
    } else {
        column_points(column, col, ox, oy, scale, rows - 1) + if column_bit(column, rows - 1) {
            block_points(ox + col * scale, oy + (rows - 1) * scale, scale, scale)
        } else {
            seq![]
        }
    }
}

/// Points of the first `cols` columns of `bitmap` drawn at `(ox, oy)`.
pub open spec fn glyph_points(bitmap: [u8; 5], ox: int, oy: int, scale: int, cols: int) -> Seq<(i64, i64)>
    decreases cols,
{
    if cols <= 0 {
        seq![]
    } else {
        glyph_points(bitmap, ox, oy, scale, cols - 1) + column_points(bitmap[cols - 1], cols - 1, ox, oy, scale, 7)
    }
}

/// Points lit by the first `n` characters of `chars` drawn at `(x, y)`,
/// character by character, column by column, row by row; `scale` is
/// already at least 1.
pub open spec fn text_points(chars: Seq<char>, x: int, y: int, scale: int, n: int) -> Seq<(i64, i64)>
    decreases n,
{
    if n <= 0 {
        seq![]
    } else {
        text_points(chars, x, y, scale, n - 1) + match glyph_table(ascii_upper(chars[n - 1])) {
            Some(bitmap) => glyph_points(bitmap, x + (n - 1) * 6 * scale, y, scale, 5),
            None => seq![],
        }
    }
}

pub open spec fn effective_scale(scale: u32) -> int {
    if scale == 0 { 1 } else { scale as int }
}

/// Every lit pixel of `bitmap` drawn with its top-left corner at
/// `(ox, oy)` and `scale`, as the `scale` by `scale` block it becomes, has
/// coordinates within `i64`.
pub open spec fn glyph_fits(bitmap: [u8; 5], ox: int, oy: int, scale: int) -> bool {
    forall|col: int, row: int|
        0 <= col < 5 && 0 <= row < 7 && #[trigger] column_bit(bitmap[col], row) ==> ox + col * scale + scale - 1
            <= i64::MAX && oy + row * scale + scale - 1 <= i64::MAX
}

/// Drawing `chars` at `(x, y)` and `scale` computes only `i64` values: for
/// each character that has a glyph, its cell offset and left edge, and
/// the coordinates of its lit pixels.
pub open spec fn text_fits(chars: Seq<char>, x: i64, y: i64, scale: u32) -> bool {
    let s = effective_scale(scale);
    forall|i: int|
        0 <= i < chars.len() ==> match #[trigger] glyph_table(ascii_upper(chars[i])) {
            Some(bitmap) => i * (6 * s) <= i64::MAX && x + i * (6 * s) <= i64::MAX && glyph_fits(
                bitmap,
                x + i * (6 * s),
                y as int,
                s,
            ),
            None => true,
        }
}

fn push_block(points: &mut Vec<(i64, i64)>, px: i64, py: i64, scale: i64)
    requires
        scale >= 1,
        px + scale - 1 <= i64::MAX,
        py + scale - 1 <= i64::MAX,
    ensures
        final(points)@ == old(points)@ + block_points(px as int, py as int, scale as int, scale as int),
{
    let mut dy: i64 = 0;
    while dy < scale
        invariant
            0 <= dy <= scale,
            scale >= 1,
            px + scale - 1 <= i64::MAX,
            py + scale - 1 <= i64::MAX,
            points@ == old(points)@ + block_points(px as int, py as int, scale as int, dy as int),
        decreases scale - dy,
    {
        let ghost before = points@;
        let mut dx: i64 = 0;
        while dx < scale
            invariant
                0 <= dx <= scale,
                0 <= dy < scale,
                px + scale - 1 <= i64::MAX,
                py + scale - 1 <= i64::MAX,
                points@ == before + block_row(px as int, (py + dy) as int, dx as int),
            decreases scale - dx,
        {
            points.push((px + dx, py + dy));
            dx = dx + 1;
        }
        proof {
            assert(block_points(px as int, py as int, scale as int, dy + 1) == block_points(
                px as int,
                py as int,
                scale as int,
                dy as int,
            ) + block_row(px as int, py + dy, scale as int));
            assert(points@ =~= old(points)@ + block_points(px as int, py as int, scale as int, dy + 1));
        }
        dy = dy + 1;
    }
}

/// The points lit by `text` drawn at `(x, y)`, in drawing order: character
/// by character (each advancing one glyph cell plus spacing), column by
/// column, row by row, each font pixel expanded into a `scale` by `scale`
/// block (a scale of 0 draws as 1). Unmapped characters light nothing but
/// still advance.
pub fn text_pixels(text: &str, x: i64, y: i64, scale: u32) -> (r: Vec<(i64, i64)>)
    requires
        text_fits(text@, x, y, scale),
    ensures
        r@ == text_points(text@, x as int, y as int, effective_scale(scale), text@.len() as int),
{
    let ghost requested = scale;
    let scale: i64 = if scale == 0 { 1 } else { scale as i64 };
    let advance: i64 = 6 * scale;
    let count = text.unicode_len();
    let mut points: Vec<(i64, i64)> = Vec::new();
    let mut index: usize = 0;
    while index < count
        invariant
            count == text@.len(),
            0 <= index <= count,
            scale == effective_scale(requested),
            scale >= 1,
            scale <= u32::MAX,
            advance == 6 * scale,
            text_fits(text@, x, y, requested),
            points@ == text_points(text@, x as int, y as int, scale as int, index as int),
        decreases count - index,
    {
        let ch = text.get_char(index);
        let ghost before = points@;
        match glyph(ch) {
            Some(bitmap) => {
                assert(glyph_table(ascii_upper(text@[index as int])) == Some(bitmap));
                assert(index * advance <= i64::MAX);
                assert(index <= index * advance) by (nonlinear_arith)
                    requires advance >= 6, index >= 0;
                assert(index * (6 * scale) == index * 6 * scale) by (nonlinear_arith);
                let origin_x = x + index as i64 * advance;
                let mut column_index: usize = 0;
                while column_index < 5
                    invariant
                        0 <= column_index <= 5,
                        scale >= 1,
                        scale <= u32::MAX,
                        origin_x == x + index * (6 * scale),
                        glyph_fits(bitmap, origin_x as int, y as int, scale as int),
                        points@ == before + glyph_points(bitmap, origin_x as int, y as int, scale as int, column_index as int),
                    decreases 5 - column_index,
                {
                    let column = bitmap[column_index];
                    let ghost before_column = points@;
                    let mut row: u32 = 0;
                    while row < GLYPH_HEIGHT
                        invariant
                            0 <= row <= 7,
                            0 <= column_index < 5,
                            scale >= 1,
                            scale <= u32::MAX,
                            column == bitmap[column_index as int],
                            glyph_fits(bitmap, origin_x as int, y as int, scale as int),
                            points@ == before_column + column_points(column, column_index as int, origin_x as int, y as int, scale as int, row as int),
                        decreases 7 - row,
                    {
                        let ghost before_row = points@;
                        if (column >> (row as u8)) & 1u8 == 1u8 {
                            proof {
                                assert(column_bit(bitmap[column_index as int], row as int));
                                assert(column_index * scale <= 4 * scale) by (nonlinear_arith)
                                    requires column_index < 5, scale >= 1;
                                assert(row * scale <= 6 * scale) by (nonlinear_arith)
                                    requires row < 7, scale >= 1;
                            }
                            push_block(&mut points, origin_x + column_index as i64 * scale, y + row as i64 * scale, scale);
                        }
                        proof {
                            assert(points@ =~= before_column + column_points(column, column_index as int, origin_x as int, y as int, scale as int, row + 1));
                        }
                        row = row + 1;
                    }
                    proof {
                        assert(points@ =~= before + glyph_points(bitmap, origin_x as int, y as int, scale as int, column_index + 1));
                    }
                    column_index = column_index + 1;
                }
                proof {
                    assert(points@ =~= text_points(text@, x as int, y as int, scale as int, index + 1));
                }
            },
            None => {
                proof {
                    assert(points@ =~= text_points(text@, x as int, y as int, scale as int, index + 1));
                }
            },
        }
        index = index + 1;
    }
    points
}

/// Call `plot` for every lit pixel of `text` drawn at `(x, y)`, in the
/// order of [`text_pixels`].
///
/// Kept as a callback rather than taking an image so the caller decides how
/// pixels land (bounds checks, blending, target buffer).
pub fn draw_text(text: &str, x: i64, y: i64, scale: u32, mut plot: impl FnMut(i64, i64))
    requires
        text_fits(text@, x, y, scale),
        forall|px: i64, py: i64| call_requires(plot, (px, py)),
{
    let points = text_pixels(text, x, y, scale);
    let mut i: usize = 0;
    while i < points.len()
        invariant
            forall|px: i64, py: i64| call_requires(plot, (px, py)),
        decreases points.len() - i,
    {
        let (px, py) = points[i];
        plot(px, py);
        i = i + 1;
    }
}

/// `v` clamped to the `u32` range from above, as `saturating_add` leaves it.
pub open spec fn sat_u32(v: int) -> int {
    if v > u32::MAX { u32::MAX as int } else { v }
}

/// `v` clamped at 0, as `saturating_sub` leaves it.
pub open spec fn sat_zero(v: int) -> int {
    if v < 0 { 0 } else { v }
}

/// Does ring `t` (counting inward from the edge) of the outline of the
/// rectangle at `(x, y)` of size `w` by `h` cover `(px, py)`?
pub open spec fn outline_ring(x: int, y: int, w: int, h: int, t: int, px: int, py: int) -> bool {
    let top = sat_u32(y + t);
    let bottom = sat_zero(sat_u32(y + sat_zero(h - 1)) - t);
    let left = sat_u32(x + t);
    let right = sat_zero(sat_u32(x + sat_zero(w - 1)) - t);
    ||| x <= px < x + w && (py == top || py == bottom)
    ||| y <= py < y + h && (px == left || px == right)
}

/// Is `(px, py)` on one of the first `rings` rings of the outline?
pub open spec fn on_outline(x: int, y: int, w: int, h: int, rings: int, px: int, py: int) -> bool
    decreases rings,
{
    if rings <= 0 {
        false
    } else {
        on_outline(x, y, w, h, rings - 1, px, py) || outline_ring(x, y, w, h, rings - 1, px, py)
    }
}

/// The frame after painting `cover` with `color`: every other pixel keeps
/// its value from `before`.
pub open spec fn painted(before: Frame, after: Frame, color: Pixel, cover: spec_fn(int, int) -> bool) -> bool {
    &&& frame_dims(after) == frame_dims(before)
    &&& forall|px: int, py: int| #[trigger] before.in_bounds(px, py) ==> after.pixel(px, py) == if cover(px, py) {
        color@
    } else {
        before.pixel(px, py)
    }
}

/// Draw a rectangle outline `thickness` pixels wide onto `img`, clipped to
/// its bounds.
pub fn draw_rect(img: &mut Frame, x: u32, y: u32, w: u32, h: u32, color: Pixel, thickness: u32)
    requires
        thickness > 0 ==> x + w <= u32::MAX && y + h <= u32::MAX,
    ensures
        painted(*old(img), *final(img), color, |px: int, py: int| on_outline(x as int, y as int, w as int, h as int, thickness as int, px, py)),
{
    let ghost start = *img;
    let (iw, ih) = img.dimensions();
    let mut t: u32 = 0;
    while t < thickness
        invariant
            thickness > 0 ==> x + w <= u32::MAX && y + h <= u32::MAX,
            t <= thickness,
            (iw, ih) == frame_dims(start),
            painted(start, *img, color, |px: int, py: int| on_outline(x as int, y as int, w as int, h as int, t as int, px, py)),
        decreases thickness - t,
    {
        let ghost ring = t as int;
        let yy_top = y.saturating_add(t);
        let yy_bottom = y.saturating_add(h.saturating_sub(1)).saturating_sub(t);
        let x_end = if x + w < iw { x + w } else { iw };
        let mut px = x;
        while px < x_end
            invariant
                x <= px,
                x_end < x ==> px == x,
                x <= x_end ==> px <= x_end,
                x_end <= x + w,
                x_end <= iw,
                x + w <= u32::MAX,
                y + h <= u32::MAX,
                t < thickness,
                ring == t,
                yy_top == sat_u32(y + t),
                yy_bottom == sat_zero(sat_u32(y + sat_zero(h - 1)) - t),
                (iw, ih) == frame_dims(start),
                painted(start, *img, color, |qx: int, qy: int| on_outline(x as int, y as int, w as int, h as int, ring, qx, qy)
                    || (x <= qx < px && (qy == yy_top || qy == yy_bottom))),
            decreases x_end - px,
        {
            let ghost before = *img;
            if yy_top < ih {
                img.put_pixel(px, yy_top, color);
            }
            let ghost mid = *img;
            if yy_bottom < ih {
                img.put_pixel(px, yy_bottom, color);
            }
            proof {
                assert forall|qx: int, qy: int| #[trigger] start.in_bounds(qx, qy) implies img.pixel(qx, qy) == if (on_outline(x as int, y as int, w as int, h as int, ring, qx, qy)
                    || (x <= qx < px + 1 && (qy == yy_top || qy == yy_bottom))) {
                    color@
                } else {
                    start.pixel(qx, qy)
                } by {
                    assert(before.in_bounds(qx, qy));
                    assert(mid.in_bounds(qx, qy));
                }
            }
            px = px + 1;
        }
        proof {
            assert forall|qx: int, qy: int| #[trigger] start.in_bounds(qx, qy) implies img.pixel(qx, qy) == if (on_outline(x as int, y as int, w as int, h as int, ring, qx, qy)
                || (x <= qx < x + w && (qy == yy_top || qy == yy_bottom))) {
                color@
            } else {
                start.pixel(qx, qy)
            } by {
                assert((x <= qx < px) == (x <= qx < x + w));
            }
        }
        let xx_left = x.saturating_add(t);
        let xx_right = x.saturating_add(w.saturating_sub(1)).saturating_sub(t);
        let y_end = if y + h < ih { y + h } else { ih };
        let mut py = y;
        while py < y_end
            invariant
                y <= py,
                y_end < y ==> py == y,
                y <= y_end ==> py <= y_end,
                y_end <= y + h,
                y_end <= ih,
                x + w <= u32::MAX,
                y + h <= u32::MAX,
                t < thickness,
                ring == t,
                yy_top == sat_u32(y + t),
                yy_bottom == sat_zero(sat_u32(y + sat_zero(h - 1)) - t),
                xx_left == sat_u32(x + t),
                xx_right == sat_zero(sat_u32(x + sat_zero(w - 1)) - t),
                (iw, ih) == frame_dims(start),
                painted(start, *img, color, |qx: int, qy: int| on_outline(x as int, y as int, w as int, h as int, ring, qx, qy)
                    || (x <= qx < x + w && (qy == yy_top || qy == yy_bottom))
                    || (y <= qy < py && (qx == xx_left || qx == xx_right))),
            decreases y_end - py,
        {
            let ghost before = *img;
            if xx_left < iw {
                img.put_pixel(xx_left, py, color);
            }
            let ghost mid = *img;
            if xx_right < iw {
                img.put_pixel(xx_right, py, color);
            }
            proof {
                assert forall|qx: int, qy: int| #[trigger] start.in_bounds(qx, qy) implies img.pixel(qx, qy) == if (on_outline(x as int, y as int, w as int, h as int, ring, qx, qy)
                    || (x <= qx < x + w && (qy == yy_top || qy == yy_bottom))
                    || (y <= qy < py + 1 && (qx == xx_left || qx == xx_right))) {
                    color@
                } else {
                    start.pixel(qx, qy)
                } by {
                    assert(before.in_bounds(qx, qy));
                    assert(mid.in_bounds(qx, qy));
                }
            }
            py = py + 1;
        }
        proof {
            assert forall|qx: int, qy: int| #[trigger] start.in_bounds(qx, qy) implies img.pixel(qx, qy) == if on_outline(x as int, y as int, w as int, h as int, ring + 1, qx, qy) {
                color@
            } else {
                start.pixel(qx, qy)
            } by {
                assert((y <= qy < py) == (y <= qy < y + h));
            }
        }
        t = t + 1;
    }
}

} // verus!
