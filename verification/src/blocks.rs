//! Unicode block-character rendering: sextant (2x3 mosaic) and shade glyphs,
//! in palette grey or truecolor.

use vstd::prelude::*;
use vstd::utf8::*;
use vstd::arithmetic::div_mod::lemma_fundamental_div_mod_converse;
use crate::ansi::{
    append_half_block_frame, half_block_frame_changes, half_block_frame_row, lemma_half_block_frame_valid,
    append_palette_frame, append_rgb_frame, frame, glyphs_without_newline, lemma_empty_valid, lemma_palette_frame_valid, lemma_rgb_frame_valid, palette_frame_changes, palette_frame_row,
    rgb_frame_changes, rgb_frame_row, rows_total, saturate_u32,
};
use crate::input::{
    cell_dimensions_error, grayscale_input_error, rgb_input_error, saturate_usize,
    saturating_mul_usize, saturating_u32, validate_cell_dimensions, validate_grayscale_input,
    validate_rgb_input, RenderError,
};
use crate::palette::{
    build_fg_sgr, build_gray_lut, is_fg_sgr_table, is_gray_lut, lemma_gray_lut_entry,
    nearest_gray_index,
};
use crate::engine::{
    lemma_half_block_frame_lines, lemma_palette_frame_lines, lemma_rgb_frame_lines, output_lines,
};
use crate::text::{char_from_u32, push_char, string_from_utf8_lossy};

verus! {

/// The bit of a sextant mask for each sub-cell: bit `2 * row + column`.
pub const SEXTANT_LEFT_HALF_MASK: u8 = 21;
pub const SEXTANT_RIGHT_HALF_MASK: u8 = 42;
pub const SEXTANT_FULL_MASK: u8 = 63;
pub const SEXTANT_ON_THRESHOLD: u8 = 128;

/// The code point drawn for a sextant mask: space, the half and full blocks
/// for their masks, and otherwise the Symbols for Legacy Computing sextant
/// block, which starts at U+1FB00 and skips the three masks above.
pub open spec fn sextant_code_point(mask: u8) -> u32 {
    if mask == 0 {
        0x20
    } else if mask == SEXTANT_LEFT_HALF_MASK {
        0x258C
    } else if mask == SEXTANT_RIGHT_HALF_MASK {
        0x2590
    } else if mask == SEXTANT_FULL_MASK {
        0x2588
    } else {
        (0x1FB00 + (mask - 1) - (if mask > SEXTANT_LEFT_HALF_MASK { 1int } else { 0int }) - (
        if mask > SEXTANT_RIGHT_HALF_MASK {
            1int
        } else {
            0int
        })) as u32
    }
}

/// The glyph for a sextant mask.
pub fn sextant_char(mask: u8) -> (ch: char)
    ensures
        ch as u32 == sextant_code_point(mask),
{
    if mask == 0 {
        ' '
    } else if mask == SEXTANT_LEFT_HALF_MASK {
        '\u{258C}'
    } else if mask == SEXTANT_RIGHT_HALF_MASK {
        '\u{2590}'
    } else if mask == SEXTANT_FULL_MASK {
        '\u{2588}'
    } else {
        let mut offset: u32 = (mask - 1) as u32;
        if mask > SEXTANT_LEFT_HALF_MASK {
            offset -= 1;
        }
        if mask > SEXTANT_RIGHT_HALF_MASK {
            offset -= 1;
        }
        match char_from_u32(0x1FB00 + offset) {
            Some(ch) => ch,
            None => ' ',
        }
    }
}


/// The glyph for a shade level: space and the light, medium, dark and full
/// shade blocks.
pub open spec fn shade_code_point(level: int) -> u32 {
    if level == 0 {
        0x20
    } else if level == 1 {
        0x2591
    } else if level == 2 {
        0x2592
    } else if level == 3 {
        0x2593
    } else {
        0x2588
    }
}

/// The shade level (0..=4) of a luma value, rounded to the nearest level.
pub open spec fn shade_level(luma: u8) -> int {
    (luma * 4 + 127) / 255
}

/// The shade glyph drawn for a luma value.
pub fn shade_char(luma: u8) -> (ch: char)
    ensures
        ch as u32 == shade_code_point(shade_level(luma)),
{
    let levels: usize = 4;
    let index: usize = (luma as usize * levels + 127) / 255;
    if index == 0 {
        ' '
    } else if index == 1 {
        '\u{2591}'
    } else if index == 2 {
        '\u{2592}'
    } else if index == 3 {
        '\u{2593}'
    } else {
        '\u{2588}'
    }
}

/// Rounded average of `count` samples summing to `sum`, capped at 255; 0 for no samples.
pub open spec fn rounded_average(sum: int, count: int) -> int {
    if count == 0 {
        0
    } else {
        let v = (sum + count / 2) / count;
        if v < 255 {
            v
        } else {
            255
        }
    }
}

/// The rounded average of a sample sum, as a byte.
pub fn average_u8(sum: u32, count: u32) -> (avg: u8)
    requires
        sum + count / 2 <= u32::MAX,
    ensures
        avg as int == rounded_average(sum as int, count as int),
{
    if count == 0 {
        0
    } else {
        let v = (sum + count / 2) / count;
        if v < 255 {
            v as u8
        } else {
            255
        }
    }
}

/// ITU-R BT.601 luma of an RGB triple, rounded to the nearest integer.
pub open spec fn luma601(r: int, g: int, b: int) -> int {
    (299 * r + 587 * g + 114 * b + 500) / 1000
}

/// The BT.601 luma of an RGB triple.
pub fn luma601_u8(r: u8, g: u8, b: u8) -> (luma: u8)
    ensures
        luma as int == luma601(r as int, g as int, b as int),
{
    ((299 * r as u32 + 587 * g as u32 + 114 * b as u32 + 500) / 1000) as u8
}


/// The pixels of one output cell along one axis of the frame: the pixel range
/// `start..end` that the cell covers (empty when `start >= end`), the first
/// pixel of its middle band (`mid_start`) and of its last band
/// (`high_start`), and whether the cell's extent along the axis is narrower
/// than the smallest measurable width (`narrow`). Horizontally a cell has two
/// bands split at `mid_start`; vertically three, split at `mid_start` and
/// `high_start`.
#[derive(Clone, Copy, Debug, PartialEq, Eq)]
pub struct AxisSpan {
    pub start: usize,
    pub end: usize,
    pub mid_start: usize,
    pub high_start: usize,
    pub narrow: bool,
}

/// Largest number of pixels one cell may cover: the per-cell sums are
/// accumulated in `u32`, and rounding adds half the count to a sum, so a
/// cell of `n` pixels of 255 needs `255 * n + n / 2 <= u32::MAX`.
pub const MAX_CELL_PIXELS: usize = 16_810_048;

/// Number of pixels a span covers.
pub open spec fn span_len(s: AxisSpan) -> int {
    if s.start < s.end {
        s.end - s.start
    } else {
        0
    }
}

/// A span lies inside an axis of `extent` pixels.
pub open spec fn span_fits(s: AxisSpan, extent: int) -> bool {
    s.end <= extent
}

/// The spans of a grid fit the frame and no cell covers too many pixels.
pub open spec fn grid_fits(
    column_spans: Seq<AxisSpan>,
    row_spans: Seq<AxisSpan>,
    width: int,
    height: int,
) -> bool {
    &&& forall|c: int| 0 <= c < column_spans.len() ==> span_fits(#[trigger] column_spans[c], width)
    &&& forall|r: int| 0 <= r < row_spans.len() ==> span_fits(#[trigger] row_spans[r], height)
    &&& forall|c: int, r: int|
        0 <= c < column_spans.len() && 0 <= r < row_spans.len() ==> span_len(
            #[trigger] column_spans[c],
        ) * span_len(#[trigger] row_spans[r]) <= MAX_CELL_PIXELS
}

/// Band (0, 1 or 2) of pixel `p` along a span.
pub open spec fn band(s: AxisSpan, p: int) -> int {
    if p < s.mid_start {
        0
    } else if p < s.high_start {
        1
    } else {
        2
    }
}

/// Sextant (0..6) of pixel `(x, y)`: `2 * vertical band + horizontal band`,
/// with two horizontal bands.
pub open spec fn sextant_of(xs: AxisSpan, ys: AxisSpan, x: int, y: int) -> int {
    2 * band(ys, y) + (if x < xs.mid_start {
        0int
    } else {
        1int
    })
}

/// `f(lo, y) + ... + f(hi - 1, y)`.
pub open spec fn row_total(f: spec_fn(int, int) -> int, y: int, lo: int, hi: int) -> int
    decreases hi - lo,
{
    if hi <= lo {
        0
    } else {
        row_total(f, y, lo, hi - 1) + f(hi - 1, y)
    }
}

/// Sum of `f(x, y)` over `x0 <= x < x1`, `y0 <= y < y1`.
pub open spec fn rect_total(f: spec_fn(int, int) -> int, x0: int, x1: int, y0: int, y1: int) -> int
    decreases y1 - y0,
{
    if y1 <= y0 {
        0
    } else {
        rect_total(f, x0, x1, y0, y1 - 1) + row_total(f, y1 - 1, x0, x1)
    }
}

/// The grey value of pixel `(x, y)` of a frame `width` pixels wide.
pub open spec fn gray_term(pixels: Seq<u8>, width: int) -> spec_fn(int, int) -> int {
    |x: int, y: int| pixels[y * width + x] as int
}

/// One for every pixel.
pub open spec fn unit_term() -> spec_fn(int, int) -> int {
    |x: int, y: int| 1int
}

/// `f` restricted to the pixels of sextant `k`.
pub open spec fn in_sextant(
    f: spec_fn(int, int) -> int,
    xs: AxisSpan,
    ys: AxisSpan,
    k: int,
) -> spec_fn(int, int) -> int {
    |x: int, y: int|
        if sextant_of(xs, ys, x, y) == k {
            f(x, y)
        } else {
            0int
        }
}

/// A cell's sextant mask: bit `k` is set when sub-cell `k` is lit.
pub open spec fn mask_of(lit: spec_fn(int) -> bool) -> int {
    (if lit(0) { 1int } else { 0int }) + (if lit(1) { 2int } else { 0int }) + (if lit(2) { 4int } else { 0int })
        + (if lit(3) { 8int } else { 0int }) + (if lit(4) { 16int } else { 0int }) + (if lit(5) { 32int } else { 0int })
}

/// A sampled grey sextant cell: which sub-cells are lit, and the cell's mean luma.
#[derive(Clone, Copy, Debug, PartialEq, Eq)]
pub struct SextantGrayCell {
    pub mask: u8,
    pub avg_luma: u8,
}

/// The pixels of a cell exist and the cell has a measurable extent.
pub open spec fn cell_is_sampled(xs: AxisSpan, ys: AxisSpan) -> bool {
    xs.start < xs.end && ys.start < ys.end && !xs.narrow && !ys.narrow
}

/// Mean of `f` over the pixels of sextant `k` of a cell, rounded.
pub open spec fn sextant_average(f: spec_fn(int, int) -> int, xs: AxisSpan, ys: AxisSpan, k: int) -> int {
    rounded_average(
        rect_total(in_sextant(f, xs, ys, k), xs.start as int, xs.end as int, ys.start as int, ys.end as int),
        rect_total(in_sextant(unit_term(), xs, ys, k), xs.start as int, xs.end as int, ys.start as int, ys.end as int),
    )
}

/// Mean of `f` over all the pixels of a cell, rounded.
pub open spec fn cell_average(f: spec_fn(int, int) -> int, xs: AxisSpan, ys: AxisSpan) -> int {
    rounded_average(
        rect_total(f, xs.start as int, xs.end as int, ys.start as int, ys.end as int),
        span_len(xs) * span_len(ys),
    )
}

/// The grey sextant sample of a cell: sub-cell `k` is lit when its mean
/// grey is at least the threshold; cells without pixels or without extent
/// are blank and black.
pub open spec fn sextant_gray_cell(pixels: Seq<u8>, width: int, xs: AxisSpan, ys: AxisSpan) -> SextantGrayCell {
    if !cell_is_sampled(xs, ys) {
        SextantGrayCell { mask: 0, avg_luma: 0 }
    } else {
        let g = gray_term(pixels, width);
        SextantGrayCell {
            mask: mask_of(|k: int| sextant_average(g, xs, ys, k) >= SEXTANT_ON_THRESHOLD) as u8,
            avg_luma: cell_average(g, xs, ys) as u8,
        }
    }
}

proof fn lemma_row_total_unit(y: int, lo: int, hi: int)
    requires
        lo <= hi,
    ensures
        row_total(unit_term(), y, lo, hi) == hi - lo,
    decreases hi - lo,
{
    if hi > lo {
        lemma_row_total_unit(y, lo, hi - 1);
    }
}

proof fn lemma_rect_total_unit(x0: int, x1: int, y0: int, y1: int)
    requires
        x0 <= x1,
        y0 <= y1,
    ensures
        rect_total(unit_term(), x0, x1, y0, y1) == (x1 - x0) * (y1 - y0),
    decreases y1 - y0,
{
    if y1 > y0 {
        lemma_rect_total_unit(x0, x1, y0, y1 - 1);
        lemma_row_total_unit(y1 - 1, x0, x1);
        assert((x1 - x0) * (y1 - y0) == (x1 - x0) * (y1 - 1 - y0) + (x1 - x0)) by (nonlinear_arith);
    } else {
        assert((x1 - x0) * (y1 - y0) == 0) by (nonlinear_arith)
            requires
                y1 == y0,
        ;
    }
}

/// The weight of bit `k` (0..=6).
pub open spec fn bit_weight(k: int) -> int {
    if k == 0 {
        1
    } else if k == 1 {
        2
    } else if k == 2 {
        4
    } else if k == 3 {
        8
    } else if k == 4 {
        16
    } else if k == 5 {
        32
    } else {
        64
    }
}

/// The mask holding the lit sub-cells among `0..n`.
pub open spec fn mask_prefix(lit: spec_fn(int) -> bool, n: int) -> int
    decreases n,
{
    if n <= 0 {
        0
    } else {
        mask_prefix(lit, n - 1) + (if lit(n - 1) {
            bit_weight(n - 1)
        } else {
            0int
        })
    }
}

proof fn lemma_mask_prefix_bounds(lit: spec_fn(int) -> bool, n: int)
    requires
        0 <= n <= 6,
    ensures
        0 <= mask_prefix(lit, n) < bit_weight(n),
    decreases n,
{
    if n > 0 {
        lemma_mask_prefix_bounds(lit, n - 1);
    }
}

proof fn lemma_mask_prefix_full(lit: spec_fn(int) -> bool)
    ensures
        mask_prefix(lit, 6) == mask_of(lit),
{
    reveal_with_fuel(mask_prefix, 7);
}

proof fn lemma_set_bit(mask: u8, index: u8)
    requires
        index < 6,
        (mask as int) < bit_weight(index as int),
    ensures
        (mask | (1u8 << index)) as int == mask as int + bit_weight(index as int),
{
    assert((1u8 << 0u8) == 1u8 && (1u8 << 1u8) == 2u8 && (1u8 << 2u8) == 4u8 && (1u8 << 3u8) == 8u8
        && (1u8 << 4u8) == 16u8 && (1u8 << 5u8) == 32u8) by (bit_vector);
    assert((mask | (1u8 << index)) == mask + (1u8 << index)) by (bit_vector)
        requires
            index < 6,
            mask < (1u8 << index),
    ;
}

/// Samples a cell of a grey frame into a sextant mask and mean luma.
fn sample_sextant_cell_gray(
    pixels: &[u8],
    width: usize,
    height: usize,
    xs: AxisSpan,
    ys: AxisSpan,
) -> (cell: SextantGrayCell)
    requires
        pixels@.len() == width * height,
        span_fits(xs, width as int),
        span_fits(ys, height as int),
        span_len(xs) * span_len(ys) <= MAX_CELL_PIXELS,
    ensures
        cell == sextant_gray_cell(pixels@, width as int, xs, ys),
{
    if xs.start >= xs.end || ys.start >= ys.end {
        return SextantGrayCell { mask: 0, avg_luma: 0 };
    }
    if xs.narrow || ys.narrow {
        return SextantGrayCell { mask: 0, avg_luma: 0 };
    }
    let ghost g = gray_term(pixels@, width as int);
    let ghost x0 = xs.start as int;
    let ghost x1 = xs.end as int;
    let ghost y0 = ys.start as int;
    let ghost area = (x1 - x0) * (ys.end - y0);
    let mut total_sum: u32 = 0;
    let mut total_count: u32 = 0;
    let mut sums: [u32; 6] = [0u32; 6];
    let mut counts: [u32; 6] = [0u32; 6];
    let mut py: usize = ys.start;
    while py < ys.end
        invariant
            xs.start < xs.end,
            ys.start <= py <= ys.end,
            ys.end <= height,
            xs.end <= width,
            pixels@.len() == width * height,
            g == gray_term(pixels@, width as int),
            x0 == xs.start,
            x1 == xs.end,
            y0 == ys.start,
            area == (x1 - x0) * (ys.end - y0),
            area <= MAX_CELL_PIXELS,
            total_count as int == (x1 - x0) * (py - y0),
            total_sum as int == rect_total(g, x0, x1, y0, py as int),
            total_sum <= 255 * total_count,
            forall|k: int|
                0 <= k < 6 ==> #[trigger] sums@[k] as int == rect_total(
                    in_sextant(g, xs, ys, k),
                    x0,
                    x1,
                    y0,
                    py as int,
                ) && counts@[k] as int == rect_total(in_sextant(unit_term(), xs, ys, k), x0, x1, y0, py as int)
                    && sums@[k] <= total_sum && counts@[k] <= total_count,
        decreases ys.end - py,
    {
        assert((x1 - x0) * (py - y0 + 1) <= area) by (nonlinear_arith)
            requires
                py < ys.end,
                area == (x1 - x0) * (ys.end - y0),
                x0 < x1,
                y0 <= py,
        ;
        assert((x1 - x0) * (py - y0 + 1) == (x1 - x0) * (py - y0) + (x1 - x0)) by (nonlinear_arith);
        let y_band: usize = if py < ys.mid_start {
            0
        } else if py < ys.high_start {
            1
        } else {
            2
        };
        assert(py * width + width <= width * height) by (nonlinear_arith)
            requires
                py < height,
        ;
        let pixel_count = pixels.len();
        assert(width * height <= usize::MAX);
        let row_base = py * width;
        assert forall|k: int| 0 <= k < 6 implies row_total(in_sextant(g, xs, ys, k), py as int, x0, x0) == 0
            && row_total(in_sextant(unit_term(), xs, ys, k), py as int, x0, x0) == 0 by {}
        assert(row_total(g, py as int, x0, x0) == 0);
        let mut px: usize = xs.start;
        while px < xs.end
            invariant
                xs.start <= px <= xs.end,
                xs.end <= width,
                py < ys.end,
                ys.end <= height,
                pixels@.len() == width * height,
                row_base == py * width,
                row_base + width <= width * height,
                width * height <= usize::MAX,
                y_band as int == band(ys, py as int),
                g == gray_term(pixels@, width as int),
                x0 == xs.start,
                x1 == xs.end,
                y0 == ys.start,
                (x1 - x0) * (py - y0) + (x1 - x0) <= MAX_CELL_PIXELS,
                total_count as int == (x1 - x0) * (py - y0) + (px - x0),
                total_sum as int == rect_total(g, x0, x1, y0, py as int) + row_total(g, py as int, x0, px as int),
                total_sum <= 255 * total_count,
                forall|k: int|
                    0 <= k < 6 ==> #[trigger] sums@[k] as int == rect_total(
                        in_sextant(g, xs, ys, k),
                        x0,
                        x1,
                        y0,
                        py as int,
                    ) + row_total(in_sextant(g, xs, ys, k), py as int, x0, px as int) && counts@[k] as int
                        == rect_total(in_sextant(unit_term(), xs, ys, k), x0, x1, y0, py as int) + row_total(
                        in_sextant(unit_term(), xs, ys, k),
                        py as int,
                        x0,
                        px as int,
                    ) && sums@[k] <= total_sum && counts@[k] <= total_count,
            decreases xs.end - px,
        {
            let x_band: usize = if px < xs.mid_start {
                0
            } else {
                1
            };
            let index = y_band * 2 + x_band;
            assert(index as int == sextant_of(xs, ys, px as int, py as int));
            let value = pixels[row_base + px] as u32;
            assert(value as int == g(px as int, py as int));
            let ghost old_sums = sums@;
            let ghost old_counts = counts@;
            total_sum += value;
            total_count += 1;
            sums[index] = sums[index] + value;
            counts[index] = counts[index] + 1;
            assert forall|k: int| 0 <= k < 6 implies #[trigger] sums@[k] as int == rect_total(
                in_sextant(g, xs, ys, k),
                x0,
                x1,
                y0,
                py as int,
            ) + row_total(in_sextant(g, xs, ys, k), py as int, x0, px + 1) && counts@[k] as int
                == rect_total(in_sextant(unit_term(), xs, ys, k), x0, x1, y0, py as int) + row_total(
                in_sextant(unit_term(), xs, ys, k),
                py as int,
                x0,
                px + 1,
            ) && sums@[k] <= total_sum && counts@[k] <= total_count by {
                assert(old_sums[k] == old_sums[k]);
                assert(old_counts[k] == old_counts[k]);
                if k != index {
                    assert(sums@[k] == old_sums[k]);
                    assert(counts@[k] == old_counts[k]);
                }
                assert(row_total(in_sextant(g, xs, ys, k), py as int, x0, px + 1) == row_total(
                    in_sextant(g, xs, ys, k),
                    py as int,
                    x0,
                    px as int,
                ) + in_sextant(g, xs, ys, k)(px as int, py as int));
                assert(row_total(in_sextant(unit_term(), xs, ys, k), py as int, x0, px + 1) == row_total(
                    in_sextant(unit_term(), xs, ys, k),
                    py as int,
                    x0,
                    px as int,
                ) + in_sextant(unit_term(), xs, ys, k)(px as int, py as int));
            }
            px += 1;
        }
        py += 1;
    }
    let ghost lit = |k: int| sextant_average(g, xs, ys, k) >= SEXTANT_ON_THRESHOLD;
    let mut mask: u8 = 0;
    let mut index: u8 = 0;
    while index < 6
        invariant
            0 <= index <= 6,
            mask as int == mask_prefix(lit, index as int),
            total_sum <= 255 * total_count,
            total_count <= MAX_CELL_PIXELS,
            lit == (|k: int| sextant_average(g, xs, ys, k) >= SEXTANT_ON_THRESHOLD),
            forall|k: int|
                0 <= k < 6 ==> #[trigger] sums@[k] as int == rect_total(
                    in_sextant(g, xs, ys, k),
                    xs.start as int,
                    xs.end as int,
                    ys.start as int,
                    ys.end as int,
                ) && counts@[k] as int == rect_total(
                    in_sextant(unit_term(), xs, ys, k),
                    xs.start as int,
                    xs.end as int,
                    ys.start as int,
                    ys.end as int,
                ) && sums@[k] <= total_sum && counts@[k] <= total_count,
        decreases 6 - index,
    {
        proof {
            lemma_mask_prefix_bounds(lit, index as int);
        }
        let average = average_u8(sums[index as usize], counts[index as usize]);
        if average >= SEXTANT_ON_THRESHOLD {
            proof {
                lemma_set_bit(mask, index);
            }
            mask |= 1u8 << index;
        }
        index += 1;
    }
    proof {
        lemma_mask_prefix_full(lit);
        lemma_mask_prefix_bounds(lit, 6);
    }
    SextantGrayCell { mask, avg_luma: average_u8(total_sum, total_count) }
}

/// Channel `c` (0 red, 1 green, 2 blue) of pixel `(x, y)` of an RGB24 frame `width` pixels wide.
pub open spec fn channel_term(pixels: Seq<u8>, width: int, c: int) -> spec_fn(int, int) -> int {
    |x: int, y: int| pixels[(y * width + x) * 3 + c] as int
}

/// The BT.601 luma of pixel `(x, y)` of an RGB24 frame.
pub open spec fn luma_term(pixels: Seq<u8>, width: int) -> spec_fn(int, int) -> int {
    |x: int, y: int|
        luma601(
            pixels[(y * width + x) * 3] as int,
            pixels[(y * width + x) * 3 + 1] as int,
            pixels[(y * width + x) * 3 + 2] as int,
        )
}

/// A sampled colour sextant cell: which sub-cells are lit, and the cell's mean colour.
#[derive(Clone, Copy, Debug, PartialEq, Eq)]
pub struct SextantRgbCell {
    pub mask: u8,
    pub avg_rgb: [u8; 3],
}

/// The colour sextant sample of a cell: sub-cell `k` is lit when the mean of
/// its per-pixel lumas is at least the threshold; the colour is the mean of
/// each channel. Cells without pixels or without extent are blank and black.
pub open spec fn sextant_rgb_cell(pixels: Seq<u8>, width: int, xs: AxisSpan, ys: AxisSpan) -> (u8, Seq<u8>) {
    if !cell_is_sampled(xs, ys) {
        (0u8, seq![0u8, 0u8, 0u8])
    } else {
        (
            mask_of(|k: int| sextant_average(luma_term(pixels, width), xs, ys, k) >= SEXTANT_ON_THRESHOLD) as u8,
            seq![
                cell_average(channel_term(pixels, width, 0), xs, ys) as u8,
                cell_average(channel_term(pixels, width, 1), xs, ys) as u8,
                cell_average(channel_term(pixels, width, 2), xs, ys) as u8,
            ],
        )
    }
}

/// Samples a cell of an RGB24 frame into a sextant mask and mean colour.
fn sample_sextant_cell_rgb(
    pixels: &[u8],
    width: usize,
    height: usize,
    xs: AxisSpan,
    ys: AxisSpan,
) -> (cell: SextantRgbCell)
    requires
        pixels@.len() == width * height * 3,
        span_fits(xs, width as int),
        span_fits(ys, height as int),
        span_len(xs) * span_len(ys) <= MAX_CELL_PIXELS,
    ensures
        (cell.mask, cell.avg_rgb@) == sextant_rgb_cell(pixels@, width as int, xs, ys),
{
    if xs.start >= xs.end || ys.start >= ys.end {
        let cell = SextantRgbCell { mask: 0, avg_rgb: [0, 0, 0] };
        assert(cell.avg_rgb@ =~= seq![0u8, 0u8, 0u8]);
        return cell;
    }
    if xs.narrow || ys.narrow {
        let cell = SextantRgbCell { mask: 0, avg_rgb: [0, 0, 0] };
        assert(cell.avg_rgb@ =~= seq![0u8, 0u8, 0u8]);
        return cell;
    }
    let ghost lt = luma_term(pixels@, width as int);
    let ghost rt = channel_term(pixels@, width as int, 0);
    let ghost gt = channel_term(pixels@, width as int, 1);
    let ghost bt = channel_term(pixels@, width as int, 2);
    let ghost x0 = xs.start as int;
    let ghost x1 = xs.end as int;
    let ghost y0 = ys.start as int;
    let ghost area = (x1 - x0) * (ys.end - y0);
    let pixel_count = pixels.len();
    let mut total_r: u32 = 0;
    let mut total_g: u32 = 0;
    let mut total_b: u32 = 0;
    let mut total_count: u32 = 0;
    let mut sums: [u32; 6] = [0u32; 6];
    let mut counts: [u32; 6] = [0u32; 6];
    let mut py: usize = ys.start;
    while py < ys.end
        invariant
            xs.start < xs.end,
            ys.start <= py <= ys.end,
            ys.end <= height,
            xs.end <= width,
            pixels@.len() == width * height * 3,
            pixel_count == pixels@.len(),
            lt == luma_term(pixels@, width as int),
            rt == channel_term(pixels@, width as int, 0),
            gt == channel_term(pixels@, width as int, 1),
            bt == channel_term(pixels@, width as int, 2),
            x0 == xs.start,
            x1 == xs.end,
            y0 == ys.start,
            area == (x1 - x0) * (ys.end - y0),
            area <= MAX_CELL_PIXELS,
            total_count as int == (x1 - x0) * (py - y0),
            total_r as int == rect_total(rt, x0, x1, y0, py as int),
            total_g as int == rect_total(gt, x0, x1, y0, py as int),
            total_b as int == rect_total(bt, x0, x1, y0, py as int),
            total_r <= 255 * total_count,
            total_g <= 255 * total_count,
            total_b <= 255 * total_count,
            forall|k: int|
                0 <= k < 6 ==> #[trigger] sums@[k] as int == rect_total(
                    in_sextant(lt, xs, ys, k),
                    x0,
                    x1,
                    y0,
                    py as int,
                ) && counts@[k] as int == rect_total(in_sextant(unit_term(), xs, ys, k), x0, x1, y0, py as int)
                    && sums@[k] <= 255 * counts@[k] && counts@[k] <= total_count,
        decreases ys.end - py,
    {
        assert((x1 - x0) * (py - y0 + 1) <= area) by (nonlinear_arith)
            requires
                py < ys.end,
                area == (x1 - x0) * (ys.end - y0),
                x0 < x1,
                y0 <= py,
        ;
        assert((x1 - x0) * (py - y0 + 1) == (x1 - x0) * (py - y0) + (x1 - x0)) by (nonlinear_arith);
        let y_band: usize = if py < ys.mid_start {
            0
        } else if py < ys.high_start {
            1
        } else {
            2
        };
        assert((py * width + width) * 3 <= width * height * 3) by (nonlinear_arith)
            requires
                py < height,
        ;
        assert(py * width * 3 == (py * width) * 3) by (nonlinear_arith);
        let row_base = py * width * 3;
        assert forall|k: int| 0 <= k < 6 implies row_total(in_sextant(lt, xs, ys, k), py as int, x0, x0) == 0
            && row_total(in_sextant(unit_term(), xs, ys, k), py as int, x0, x0) == 0 by {}
        assert(row_total(rt, py as int, x0, x0) == 0);
        assert(row_total(gt, py as int, x0, x0) == 0);
        assert(row_total(bt, py as int, x0, x0) == 0);
        let mut px: usize = xs.start;
        while px < xs.end
            invariant
                xs.start <= px <= xs.end,
                xs.end <= width,
                py < ys.end,
                ys.end <= height,
                pixels@.len() == width * height * 3,
                pixel_count == pixels@.len(),
                row_base == py * width * 3,
                (py * width + width) * 3 <= width * height * 3,
                y_band as int == band(ys, py as int),
                lt == luma_term(pixels@, width as int),
                rt == channel_term(pixels@, width as int, 0),
                gt == channel_term(pixels@, width as int, 1),
                bt == channel_term(pixels@, width as int, 2),
                x0 == xs.start,
                x1 == xs.end,
                y0 == ys.start,
                (x1 - x0) * (py - y0) + (x1 - x0) <= MAX_CELL_PIXELS,
                total_count as int == (x1 - x0) * (py - y0) + (px - x0),
                total_r as int == rect_total(rt, x0, x1, y0, py as int) + row_total(rt, py as int, x0, px as int),
                total_g as int == rect_total(gt, x0, x1, y0, py as int) + row_total(gt, py as int, x0, px as int),
                total_b as int == rect_total(bt, x0, x1, y0, py as int) + row_total(bt, py as int, x0, px as int),
                total_r <= 255 * total_count,
                total_g <= 255 * total_count,
                total_b <= 255 * total_count,
                forall|k: int|
                    0 <= k < 6 ==> #[trigger] sums@[k] as int == rect_total(
                        in_sextant(lt, xs, ys, k),
                        x0,
                        x1,
                        y0,
                        py as int,
                    ) + row_total(in_sextant(lt, xs, ys, k), py as int, x0, px as int) && counts@[k] as int
                        == rect_total(in_sextant(unit_term(), xs, ys, k), x0, x1, y0, py as int) + row_total(
                        in_sextant(unit_term(), xs, ys, k),
                        py as int,
                        x0,
                        px as int,
                    ) && sums@[k] <= 255 * counts@[k] && counts@[k] <= total_count,
            decreases xs.end - px,
        {
            let x_band: usize = if px < xs.mid_start {
                0
            } else {
                1
            };
            let index = y_band * 2 + x_band;
            assert(index as int == sextant_of(xs, ys, px as int, py as int));
            assert(row_base + px * 3 + 2 < width * height * 3) by (nonlinear_arith)
                requires
                    row_base == py * width * 3,
                    px < width,
                    (py * width + width) * 3 <= width * height * 3,
            ;
            assert(row_base + px * 3 == (py * width + px) * 3) by (nonlinear_arith)
                requires
                    row_base == py * width * 3,
            ;
            let pixel_index = row_base + px * 3;
            let r = pixels[pixel_index];
            let g = pixels[pixel_index + 1];
            let b = pixels[pixel_index + 2];
            assert(r as int == rt(px as int, py as int));
            assert(g as int == gt(px as int, py as int));
            assert(b as int == bt(px as int, py as int));
            let luma = luma601_u8(r, g, b);
            assert(luma as int == lt(px as int, py as int));
            let ghost old_sums = sums@;
            let ghost old_counts = counts@;
            total_r += r as u32;
            total_g += g as u32;
            total_b += b as u32;
            total_count += 1;
            sums[index] = sums[index] + luma as u32;
            counts[index] = counts[index] + 1;
            assert forall|k: int| 0 <= k < 6 implies #[trigger] sums@[k] as int == rect_total(
                in_sextant(lt, xs, ys, k),
                x0,
                x1,
                y0,
                py as int,
            ) + row_total(in_sextant(lt, xs, ys, k), py as int, x0, px + 1) && counts@[k] as int
                == rect_total(in_sextant(unit_term(), xs, ys, k), x0, x1, y0, py as int) + row_total(
                in_sextant(unit_term(), xs, ys, k),
                py as int,
                x0,
                px + 1,
            ) && sums@[k] <= 255 * counts@[k] && counts@[k] <= total_count by {
                assert(old_sums[k] <= 255 * old_counts[k]);
                if k != index {
                    assert(sums@[k] == old_sums[k]);
                    assert(counts@[k] == old_counts[k]);
                } else {
                    assert(sums@[k] == old_sums[k] + luma);
                    assert(counts@[k] == old_counts[k] + 1);
                }
                assert(row_total(in_sextant(lt, xs, ys, k), py as int, x0, px + 1) == row_total(
                    in_sextant(lt, xs, ys, k),
                    py as int,
                    x0,
                    px as int,
                ) + in_sextant(lt, xs, ys, k)(px as int, py as int));
                assert(row_total(in_sextant(unit_term(), xs, ys, k), py as int, x0, px + 1) == row_total(
                    in_sextant(unit_term(), xs, ys, k),
                    py as int,
                    x0,
                    px as int,
                ) + in_sextant(unit_term(), xs, ys, k)(px as int, py as int));
            }
            px += 1;
        }
        py += 1;
    }
    let ghost lit = |k: int| sextant_average(lt, xs, ys, k) >= SEXTANT_ON_THRESHOLD;
    let mut mask: u8 = 0;
    let mut index: u8 = 0;
    while index < 6
        invariant
            0 <= index <= 6,
            mask as int == mask_prefix(lit, index as int),
            total_count <= MAX_CELL_PIXELS,
            lit == (|k: int| sextant_average(lt, xs, ys, k) >= SEXTANT_ON_THRESHOLD),
            forall|k: int|
                0 <= k < 6 ==> #[trigger] sums@[k] as int == rect_total(
                    in_sextant(lt, xs, ys, k),
                    xs.start as int,
                    xs.end as int,
                    ys.start as int,
                    ys.end as int,
                ) && counts@[k] as int == rect_total(
                    in_sextant(unit_term(), xs, ys, k),
                    xs.start as int,
                    xs.end as int,
                    ys.start as int,
                    ys.end as int,
                ) && sums@[k] <= 255 * counts@[k] && counts@[k] <= total_count,
        decreases 6 - index,
    {
        proof {
            lemma_mask_prefix_bounds(lit, index as int);
        }
        let average = average_u8(sums[index as usize], counts[index as usize]);
        if average >= SEXTANT_ON_THRESHOLD {
            proof {
                lemma_set_bit(mask, index);
            }
            mask |= 1u8 << index;
        }
        index += 1;
    }
    proof {
        lemma_mask_prefix_full(lit);
        lemma_mask_prefix_bounds(lit, 6);
    }
    let cell = SextantRgbCell {
        mask,
        avg_rgb: [
            average_u8(total_r, total_count),
            average_u8(total_g, total_count),
            average_u8(total_b, total_count),
        ],
    };
    assert(cell.avg_rgb@ =~= sextant_rgb_cell(pixels@, width as int, xs, ys).1);
    cell
}

/// Mean grey of the pixels a cell covers, rounded (0 when it covers none).
fn sample_gray_region(pixels: &[u8], width: usize, height: usize, xs: AxisSpan, ys: AxisSpan) -> (avg: u8)
    requires
        pixels@.len() == width * height,
        span_fits(xs, width as int),
        span_fits(ys, height as int),
        span_len(xs) * span_len(ys) <= MAX_CELL_PIXELS,
    ensures
        avg as int == cell_average(gray_term(pixels@, width as int), xs, ys),
{
    if xs.start >= xs.end || ys.start >= ys.end {
        proof {
            assert(span_len(xs) * span_len(ys) == 0) by (nonlinear_arith)
                requires
                    span_len(xs) == 0 || span_len(ys) == 0,
            ;
        }
        return 0;
    }
    let ghost g = gray_term(pixels@, width as int);
    let ghost x0 = xs.start as int;
    let ghost x1 = xs.end as int;
    let ghost y0 = ys.start as int;
    let ghost area = (x1 - x0) * (ys.end - y0);
    let pixel_count = pixels.len();
    let mut sum: u32 = 0;
    let mut count: u32 = 0;
    let mut py: usize = ys.start;
    while py < ys.end
        invariant
            xs.start < xs.end,
            ys.start <= py <= ys.end,
            ys.end <= height,
            xs.end <= width,
            pixels@.len() == width * height,
            pixel_count == pixels@.len(),
            g == gray_term(pixels@, width as int),
            x0 == xs.start,
            x1 == xs.end,
            y0 == ys.start,
            area == (x1 - x0) * (ys.end - y0),
            area <= MAX_CELL_PIXELS,
            count as int == (x1 - x0) * (py - y0),
            sum as int == rect_total(g, x0, x1, y0, py as int),
            sum <= 255 * count,
        decreases ys.end - py,
    {
        assert((x1 - x0) * (py - y0 + 1) <= area) by (nonlinear_arith)
            requires
                py < ys.end,
                area == (x1 - x0) * (ys.end - y0),
                x0 < x1,
                y0 <= py,
        ;
        assert((x1 - x0) * (py - y0 + 1) == (x1 - x0) * (py - y0) + (x1 - x0)) by (nonlinear_arith);
        assert(py * width + width <= width * height) by (nonlinear_arith)
            requires
                py < height,
        ;
        let row_base = py * width;
        let mut px: usize = xs.start;
        while px < xs.end
            invariant
                xs.start <= px <= xs.end,
                xs.end <= width,
                pixels@.len() == width * height,
                pixel_count == pixels@.len(),
                row_base == py * width,
                row_base + width <= width * height,
                g == gray_term(pixels@, width as int),
                x0 == xs.start,
                x1 == xs.end,
                (x1 - x0) * (py - y0) + (x1 - x0) <= MAX_CELL_PIXELS,
                count as int == (x1 - x0) * (py - y0) + (px - x0),
                sum as int == rect_total(g, x0, x1, y0, py as int) + row_total(g, py as int, x0, px as int),
                sum <= 255 * count,
            decreases xs.end - px,
        {
            sum += pixels[row_base + px] as u32;
            count += 1;
            px += 1;
        }
        py += 1;
    }
    assert(count as int == span_len(xs) * span_len(ys));
    average_u8(sum, count)
}

/// Mean of each channel of the pixels a cell covers, rounded (black when it covers none).
fn sample_rgb_region(pixels: &[u8], width: usize, height: usize, xs: AxisSpan, ys: AxisSpan) -> (avg: [u8; 3])
    requires
        pixels@.len() == width * height * 3,
        span_fits(xs, width as int),
        span_fits(ys, height as int),
        span_len(xs) * span_len(ys) <= MAX_CELL_PIXELS,
    ensures
        forall|c: int|
            0 <= c < 3 ==> #[trigger] avg@[c] as int == cell_average(
                channel_term(pixels@, width as int, c),
                xs,
                ys,
            ),
{
    if xs.start >= xs.end || ys.start >= ys.end {
        proof {
            assert(span_len(xs) * span_len(ys) == 0) by (nonlinear_arith)
                requires
                    span_len(xs) == 0 || span_len(ys) == 0,
            ;
        }
        return [0, 0, 0];
    }
    let ghost rt = channel_term(pixels@, width as int, 0);
    let ghost gt = channel_term(pixels@, width as int, 1);
    let ghost bt = channel_term(pixels@, width as int, 2);
    let ghost x0 = xs.start as int;
    let ghost x1 = xs.end as int;
    let ghost y0 = ys.start as int;
    let ghost area = (x1 - x0) * (ys.end - y0);
    let pixel_count = pixels.len();
    let mut sum_r: u32 = 0;
    let mut sum_g: u32 = 0;
    let mut sum_b: u32 = 0;
    let mut count: u32 = 0;
    let mut py: usize = ys.start;
    while py < ys.end
        invariant
            xs.start < xs.end,
            ys.start <= py <= ys.end,
            ys.end <= height,
            xs.end <= width,
            pixels@.len() == width * height * 3,
            pixel_count == pixels@.len(),
            rt == channel_term(pixels@, width as int, 0),
            gt == channel_term(pixels@, width as int, 1),
            bt == channel_term(pixels@, width as int, 2),
            x0 == xs.start,
            x1 == xs.end,
            y0 == ys.start,
            area == (x1 - x0) * (ys.end - y0),
            area <= MAX_CELL_PIXELS,
            count as int == (x1 - x0) * (py - y0),
            sum_r as int == rect_total(rt, x0, x1, y0, py as int),
            sum_g as int == rect_total(gt, x0, x1, y0, py as int),
            sum_b as int == rect_total(bt, x0, x1, y0, py as int),
            sum_r <= 255 * count,
            sum_g <= 255 * count,
            sum_b <= 255 * count,
        decreases ys.end - py,
    {
        assert((x1 - x0) * (py - y0 + 1) <= area) by (nonlinear_arith)
            requires
                py < ys.end,
                area == (x1 - x0) * (ys.end - y0),
                x0 < x1,
                y0 <= py,
        ;
        assert((x1 - x0) * (py - y0 + 1) == (x1 - x0) * (py - y0) + (x1 - x0)) by (nonlinear_arith);
        assert((py * width + width) * 3 <= width * height * 3) by (nonlinear_arith)
            requires
                py < height,
        ;
        assert(py * width * 3 == (py * width) * 3) by (nonlinear_arith);
        let row_base = py * width * 3;
        let mut px: usize = xs.start;
        while px < xs.end
            invariant
                xs.start <= px <= xs.end,
                xs.end <= width,
                pixels@.len() == width * height * 3,
                pixel_count == pixels@.len(),
                row_base == py * width * 3,
                (py * width + width) * 3 <= width * height * 3,
                rt == channel_term(pixels@, width as int, 0),
                gt == channel_term(pixels@, width as int, 1),
                bt == channel_term(pixels@, width as int, 2),
                x0 == xs.start,
                x1 == xs.end,
                (x1 - x0) * (py - y0) + (x1 - x0) <= MAX_CELL_PIXELS,
                count as int == (x1 - x0) * (py - y0) + (px - x0),
                sum_r as int == rect_total(rt, x0, x1, y0, py as int) + row_total(rt, py as int, x0, px as int),
                sum_g as int == rect_total(gt, x0, x1, y0, py as int) + row_total(gt, py as int, x0, px as int),
                sum_b as int == rect_total(bt, x0, x1, y0, py as int) + row_total(bt, py as int, x0, px as int),
                sum_r <= 255 * count,
                sum_g <= 255 * count,
                sum_b <= 255 * count,
            decreases xs.end - px,
        {
            assert(row_base + px * 3 + 2 < width * height * 3) by (nonlinear_arith)
                requires
                    row_base == py * width * 3,
                    px < width,
                    (py * width + width) * 3 <= width * height * 3,
            ;
            assert(row_base + px * 3 == (py * width + px) * 3) by (nonlinear_arith)
                requires
                    row_base == py * width * 3,
            ;
            let pixel_index = row_base + px * 3;
            sum_r += pixels[pixel_index] as u32;
            sum_g += pixels[pixel_index + 1] as u32;
            sum_b += pixels[pixel_index + 2] as u32;
            count += 1;
            px += 1;
        }
        py += 1;
    }
    assert(count as int == span_len(xs) * span_len(ys));
    let avg = [average_u8(sum_r, count), average_u8(sum_g, count), average_u8(sum_b, count)];
    assert(avg@[0] as int == cell_average(rt, xs, ys));
    assert(avg@[1] as int == cell_average(gt, xs, ys));
    assert(avg@[2] as int == cell_average(bt, xs, ys));
    avg
}

proof fn lemma_row_major(i: int, row: int, column: int, columns: int)
    requires
        0 <= column < columns,
        0 <= row,
        i == row * columns + column,
    ensures
        i % columns == column,
        i / columns == row,
{
    lemma_fundamental_div_mod_converse(i, columns, row, column);
}

/// The column span of cell `i` of a row-major grid.
pub open spec fn cell_column(column_spans: Seq<AxisSpan>, i: int) -> AxisSpan {
    column_spans[i % column_spans.len() as int]
}

/// The row span of cell `i` of a row-major grid.
pub open spec fn cell_row(column_spans: Seq<AxisSpan>, row_spans: Seq<AxisSpan>, i: int) -> AxisSpan {
    row_spans[i / column_spans.len() as int]
}

/// Samples every cell of a grey frame into sextant masks, row-major.
fn sample_sextant_cells_gray(
    pixels: &[u8],
    width: usize,
    height: usize,
    column_spans: &[AxisSpan],
    row_spans: &[AxisSpan],
) -> (cells: Vec<SextantGrayCell>)
    requires
        pixels@.len() == width * height,
        grid_fits(column_spans@, row_spans@, width as int, height as int),
        column_spans@.len() * row_spans@.len() <= usize::MAX,
    ensures
        cells@.len() == column_spans@.len() * row_spans@.len(),
        forall|i: int|
            0 <= i < cells@.len() ==> #[trigger] cells@[i] == sextant_gray_cell(
                pixels@,
                width as int,
                cell_column(column_spans@, i),
                cell_row(column_spans@, row_spans@, i),
            ),
{
    let columns = column_spans.len();
    let rows = row_spans.len();
    let mut cells: Vec<SextantGrayCell> = Vec::with_capacity(saturating_mul_usize(columns, rows));
    let mut row: usize = 0;
    while row < rows
        invariant
            0 <= row <= rows,
            columns == column_spans@.len(),
            rows == row_spans@.len(),
            columns * rows <= usize::MAX,
            pixels@.len() == width * height,
            grid_fits(column_spans@, row_spans@, width as int, height as int),
            cells@.len() == row * columns,
            forall|i: int|
                0 <= i < cells@.len() ==> #[trigger] cells@[i] == sextant_gray_cell(
                    pixels@,
                    width as int,
                    cell_column(column_spans@, i),
                    cell_row(column_spans@, row_spans@, i),
                ),
        decreases rows - row,
    {
        let mut column: usize = 0;
        while column < columns
            invariant
                0 <= column <= columns,
                row < rows,
                columns == column_spans@.len(),
                rows == row_spans@.len(),
                columns * rows <= usize::MAX,
                pixels@.len() == width * height,
                grid_fits(column_spans@, row_spans@, width as int, height as int),
                cells@.len() == row * columns + column,
                forall|i: int|
                    0 <= i < cells@.len() ==> #[trigger] cells@[i] == sextant_gray_cell(
                        pixels@,
                        width as int,
                        cell_column(column_spans@, i),
                        cell_row(column_spans@, row_spans@, i),
                    ),
            decreases columns - column,
        {
            proof {
                lemma_row_major(row * columns + column, row as int, column as int, columns as int);
                assert(span_len(column_spans@[column as int]) * span_len(row_spans@[row as int])
                    <= MAX_CELL_PIXELS);
            }
            let cell = sample_sextant_cell_gray(pixels, width, height, column_spans[column], row_spans[row]);
            cells.push(cell);
            column += 1;
        }
        assert(row * columns + columns == (row + 1) * columns) by (nonlinear_arith);
        row += 1;
    }
    assert(rows * columns == columns * rows) by (nonlinear_arith);
    cells
}

/// The mean grey of a cell, for shade rendering.
#[derive(Clone, Copy, Debug, PartialEq, Eq)]
pub struct ShadeGrayCell {
    pub avg_luma: u8,
}

/// The mean colour of a cell and that colour's luma, for shade rendering.
#[derive(Clone, Copy, Debug, PartialEq, Eq)]
pub struct ShadeRgbCell {
    pub avg_luma: u8,
    pub avg_rgb: [u8; 3],
}

/// The mean colour of a cell, channel by channel, and its luma.
pub open spec fn shade_rgb_cell(pixels: Seq<u8>, width: int, xs: AxisSpan, ys: AxisSpan) -> (u8, Seq<u8>) {
    let r = cell_average(channel_term(pixels, width, 0), xs, ys);
    let g = cell_average(channel_term(pixels, width, 1), xs, ys);
    let b = cell_average(channel_term(pixels, width, 2), xs, ys);
    (luma601(r, g, b) as u8, seq![r as u8, g as u8, b as u8])
}

/// Masks other than blank, the two half blocks and the full block: they
/// are drawn from the sextant block of Symbols for Legacy Computing.
pub open spec fn is_plain_sextant_mask(m: int) -> bool {
    0 < m < 64 && m != 21 && m != 42 && m != 63
}

/// The sextant glyphs: blank, the left and right half blocks and the full
/// block for their masks; every other mask gets its own glyph of U+1FB00
/// ..= U+1FB3B, in increasing mask order, so that mask 1 (upper-left lit)
/// is U+1FB00 and mask 62 (all but upper-left) is U+1FB3B. No two masks
/// share a glyph.
pub proof fn lemma_sextant_glyphs(m1: u8, m2: u8)
    requires
        m1 < 64,
        m2 < 64,
    ensures
        sextant_code_point(0) == 0x20,
        sextant_code_point(21) == 0x258C,
        sextant_code_point(42) == 0x2590,
        sextant_code_point(63) == 0x2588,
        sextant_code_point(1) == 0x1FB00,
        sextant_code_point(62) == 0x1FB3B,
        is_plain_sextant_mask(m1 as int) ==> 0x1FB00 <= sextant_code_point(m1) <= 0x1FB3B,
        is_plain_sextant_mask(m1 as int) && is_plain_sextant_mask(m2 as int) && m1 < m2
            ==> sextant_code_point(m1) < sextant_code_point(m2),
        m1 != m2 ==> sextant_code_point(m1) != sextant_code_point(m2),
{
}

/// The shade level of a luma is the level of the 0..=4 scale nearest to
/// it: `|4 * luma - 255 * level| <= 127`, which holds for one level only;
/// levels 0 to 4 are blank, light, medium, dark shade and the full block.
pub proof fn lemma_shade_level_nearest(luma: u8, level: int)
    ensures
        0 <= shade_level(luma) <= 4,
        -127 <= 4 * luma - 255 * shade_level(luma) <= 127,
        0 <= level <= 4 && -127 <= 4 * luma - 255 * level <= 127 ==> level == shade_level(luma),
        shade_code_point(0) == 0x20,
        shade_code_point(1) == 0x2591,
        shade_code_point(2) == 0x2592,
        shade_code_point(3) == 0x2593,
        shade_code_point(4) == 0x2588,
{
    let q = shade_level(luma);
    let t = luma * 4 + 127;
    assert(255 * q <= t < 255 * q + 255) by (nonlinear_arith)
        requires
            q == t / 255,
            t >= 0,
    ;
}

proof fn lemma_row_total_bounded(f: spec_fn(int, int) -> int, y: int, lo: int, hi: int)
    requires
        lo <= hi,
        forall|x: int| lo <= x < hi ==> 0 <= #[trigger] f(x, y) <= 255,
    ensures
        0 <= row_total(f, y, lo, hi) <= 255 * (hi - lo),
    decreases hi - lo,
{
    if hi > lo {
        lemma_row_total_bounded(f, y, lo, hi - 1);
        assert(0 <= f(hi - 1, y) <= 255);
    }
}

proof fn lemma_rect_total_bounded(f: spec_fn(int, int) -> int, x0: int, x1: int, y0: int, y1: int)
    requires
        x0 <= x1,
        y0 <= y1,
        forall|x: int, y: int| x0 <= x < x1 && y0 <= y < y1 ==> 0 <= #[trigger] f(x, y) <= 255,
    ensures
        0 <= rect_total(f, x0, x1, y0, y1) <= 255 * ((x1 - x0) * (y1 - y0)),
    decreases y1 - y0,
{
    if y1 > y0 {
        lemma_rect_total_bounded(f, x0, x1, y0, y1 - 1);
        assert forall|x: int| x0 <= x < x1 implies 0 <= #[trigger] f(x, y1 - 1) <= 255 by {}
        lemma_row_total_bounded(f, y1 - 1, x0, x1);
        assert((x1 - x0) * (y1 - y0) == (x1 - x0) * (y1 - 1 - y0) + (x1 - x0)) by (nonlinear_arith);
    } else {
        assert((x1 - x0) * (y1 - y0) == 0) by (nonlinear_arith)
            requires
                y1 == y0,
        ;
    }
}

proof fn lemma_row_total_const(f: spec_fn(int, int) -> int, y: int, lo: int, hi: int, v: int)
    requires
        lo <= hi,
        forall|x: int| lo <= x < hi ==> #[trigger] f(x, y) == v,
    ensures
        row_total(f, y, lo, hi) == v * (hi - lo),
    decreases hi - lo,
{
    if hi > lo {
        lemma_row_total_const(f, y, lo, hi - 1, v);
        assert(f(hi - 1, y) == v);
        assert(v * (hi - lo) == v * (hi - 1 - lo) + v) by (nonlinear_arith);
    } else {
        assert(v * (hi - lo) == 0) by (nonlinear_arith)
            requires
                hi == lo,
        ;
    }
}

proof fn lemma_rect_total_const(f: spec_fn(int, int) -> int, x0: int, x1: int, y0: int, y1: int, v: int)
    requires
        x0 <= x1,
        y0 <= y1,
        forall|x: int, y: int| x0 <= x < x1 && y0 <= y < y1 ==> #[trigger] f(x, y) == v,
    ensures
        rect_total(f, x0, x1, y0, y1) == v * ((x1 - x0) * (y1 - y0)),
    decreases y1 - y0,
{
    if y1 > y0 {
        lemma_rect_total_const(f, x0, x1, y0, y1 - 1, v);
        assert forall|x: int| x0 <= x < x1 implies #[trigger] f(x, y1 - 1) == v by {}
        lemma_row_total_const(f, y1 - 1, x0, x1, v);
        assert(v * ((x1 - x0) * (y1 - y0)) == v * ((x1 - x0) * (y1 - 1 - y0)) + v * (x1 - x0))
            by (nonlinear_arith);
    } else {
        assert(v * ((x1 - x0) * (y1 - y0)) == 0) by (nonlinear_arith)
            requires
                y1 == y0,
        ;
    }
}

/// Channel `c` of the pixels of an RGB24 frame `width` pixels wide.
spec fn rgb_channel(pixels: Seq<u8>, width: int, c: int) -> spec_fn(int, int) -> int {
    |x: int, y: int| pixels[(y * width + x) * 3 + c] as int
}

/// Whether `value` is the rounded mean of the samples summing to `sum` over
/// `count > 0` samples: `value * count <= sum + count / 2 < (value + 1) * count`.
pub open spec fn is_rounded_mean(value: int, sum: int, count: int) -> bool {
    value * count <= sum + count / 2 < value * count + count
}

/// The rounded mean of channel `c` over the pixels `xs` by `ys` covers; and
/// where all those pixels have the value `v` in channel `c`, that mean is `v`.
proof fn lemma_channel_mean(pixels: Seq<u8>, width: int, xs: AxisSpan, ys: AxisSpan, c: int, v: int)
    requires
        xs.start < xs.end,
        ys.start < ys.end,
    ensures
        ({
            let n = span_len(xs) * span_len(ys);
            let mean = cell_average(channel_term(pixels, width, c), xs, ys);
            let sum = rect_total(rgb_channel(pixels, width, c), xs.start as int, xs.end as int, ys.start as int, ys.end as int);
            &&& n > 0
            &&& 0 <= mean <= 255
            &&& is_rounded_mean(mean, sum, n)
            &&& (forall|x: int, y: int|
                xs.start <= x < xs.end && ys.start <= y < ys.end ==> #[trigger] pixels[(y * width + x) * 3 + c] == v)
                ==> mean == v
        }),
{
    let f = channel_term(pixels, width, c);
    assert(f =~= rgb_channel(pixels, width, c));
    let x0 = xs.start as int;
    let x1 = xs.end as int;
    let y0 = ys.start as int;
    let y1 = ys.end as int;
    let n = span_len(xs) * span_len(ys);
    assert(n == (x1 - x0) * (y1 - y0));
    assert(n > 0) by (nonlinear_arith)
        requires
            n == (x1 - x0) * (y1 - y0),
            x0 < x1,
            y0 < y1,
    ;
    assert forall|x: int, y: int| x0 <= x < x1 && y0 <= y < y1 implies 0 <= #[trigger] f(x, y) <= 255 by {}
    lemma_rect_total_bounded(f, x0, x1, y0, y1);
    let sum = rect_total(f, x0, x1, y0, y1);
    let q = (sum + n / 2) / n;
    assert(q * n <= sum + n / 2 < q * n + n && q <= 255) by (nonlinear_arith)
        requires
            q == (sum + n / 2) / n,
            n > 0,
            0 <= sum <= 255 * n,
    ;
    assert(cell_average(f, xs, ys) == q);
    if forall|x: int, y: int|
        xs.start <= x < xs.end && ys.start <= y < ys.end ==> #[trigger] pixels[(y * width + x) * 3 + c] == v {
        assert forall|x: int, y: int| x0 <= x < x1 && y0 <= y < y1 implies #[trigger] f(x, y) == v by {
            assert(pixels[(y * width + x) * 3 + c] == v);
        }
        lemma_rect_total_const(f, x0, x1, y0, y1, v);
        assert(q == v) by (nonlinear_arith)
            requires
                q * n <= sum + n / 2 < q * n + n,
                sum == v * n,
                n > 0,
        ;
    }
}

/// The colour of a colour sextant cell is, channel by channel in red,
/// green, blue order, the rounded mean of that channel over the pixels the
/// cell covers, so a cell of one colour is drawn in that colour; a cell
/// without pixels or without extent is black.
pub proof fn lemma_sextant_rgb_colour(pixels: Seq<u8>, width: int, xs: AxisSpan, ys: AxisSpan, c: int, v: u8)
    requires
        0 <= c < 3,
    ensures
        sextant_rgb_cell(pixels, width, xs, ys).1.len() == 3,
        !cell_is_sampled(xs, ys) ==> sextant_rgb_cell(pixels, width, xs, ys).1[c] == 0,
        cell_is_sampled(xs, ys) ==> is_rounded_mean(
            sextant_rgb_cell(pixels, width, xs, ys).1[c] as int,
            rect_total(
                |x: int, y: int| pixels[(y * width + x) * 3 + c] as int,
                xs.start as int,
                xs.end as int,
                ys.start as int,
                ys.end as int,
            ),
            span_len(xs) * span_len(ys),
        ),
        cell_is_sampled(xs, ys) && (forall|x: int, y: int|
            xs.start <= x < xs.end && ys.start <= y < ys.end ==> #[trigger] pixels[(y * width + x) * 3 + c] == v)
            ==> sextant_rgb_cell(pixels, width, xs, ys).1[c] == v,
{
    assert(rgb_channel(pixels, width, c) =~= (|x: int, y: int| pixels[(y * width + x) * 3 + c] as int));
    if cell_is_sampled(xs, ys) {
        lemma_channel_mean(pixels, width, xs, ys, c, v as int);
    }
}

/// The colour of a colour shade cell is, channel by channel in red, green,
/// blue order, the rounded mean of that channel over the pixels the cell
/// covers, so a cell of one colour is drawn in that colour; a cell without
/// pixels is black.
pub proof fn lemma_shade_rgb_colour(pixels: Seq<u8>, width: int, xs: AxisSpan, ys: AxisSpan, c: int, v: u8)
    requires
        0 <= c < 3,
    ensures
        shade_rgb_cell(pixels, width, xs, ys).1.len() == 3,
        span_len(xs) * span_len(ys) == 0 ==> shade_rgb_cell(pixels, width, xs, ys).1[c] == 0,
        span_len(xs) * span_len(ys) > 0 ==> is_rounded_mean(
            shade_rgb_cell(pixels, width, xs, ys).1[c] as int,
            rect_total(
                |x: int, y: int| pixels[(y * width + x) * 3 + c] as int,
                xs.start as int,
                xs.end as int,
                ys.start as int,
                ys.end as int,
            ),
            span_len(xs) * span_len(ys),
        ),
        span_len(xs) * span_len(ys) > 0 && (forall|x: int, y: int|
            xs.start <= x < xs.end && ys.start <= y < ys.end ==> #[trigger] pixels[(y * width + x) * 3 + c] == v)
            ==> shade_rgb_cell(pixels, width, xs, ys).1[c] == v,
{
    assert(rgb_channel(pixels, width, c) =~= (|x: int, y: int| pixels[(y * width + x) * 3 + c] as int));
    if span_len(xs) * span_len(ys) > 0 {
        assert(xs.start < xs.end && ys.start < ys.end) by (nonlinear_arith)
            requires
                span_len(xs) * span_len(ys) > 0,
                span_len(xs) >= 0,
                span_len(ys) >= 0,
                span_len(xs) == (if xs.start < xs.end { xs.end - xs.start } else { 0 }),
                span_len(ys) == (if ys.start < ys.end { ys.end - ys.start } else { 0 }),
        ;
        lemma_channel_mean(pixels, width, xs, ys, c, v as int);
    }
}

/// Channel `c` (0 red, 1 green, 2 blue) of a colour.
pub open spec fn colour_channel(colour: (u8, u8, u8), c: int) -> u8 {
    if c == 0 {
        colour.0
    } else if c == 1 {
        colour.1
    } else {
        colour.2
    }
}

/// A half-block cell splits its rows at the row span's `mid_start` (kept
/// within the span); its upper colour is, channel by channel, the rounded
/// mean over the pixels above the split and its lower colour over those
/// from the split on, so halves of one colour are drawn in that colour; an
/// empty half is black.
pub proof fn lemma_half_block_colours(pixels: Seq<u8>, width: int, xs: AxisSpan, ys: AxisSpan, c: int, v: u8)
    requires
        0 <= c < 3,
        xs.start < xs.end,
    ensures
        ys.start < ys.end ==> ys.start <= half_split(ys) <= ys.end,
        ys.start <= ys.mid_start <= ys.end ==> half_split(ys) == ys.mid_start,
        ({
            let split = half_split(ys) as int;
            let upper = colour_channel(half_block_colours(pixels, width, xs, ys).0, c) as int;
            let lower = colour_channel(half_block_colours(pixels, width, xs, ys).1, c) as int;
            let channel = |x: int, y: int| pixels[(y * width + x) * 3 + c] as int;
            &&& (ys.start < split ==> is_rounded_mean(
                upper,
                rect_total(channel, xs.start as int, xs.end as int, ys.start as int, split),
                span_len(xs) * (split - ys.start),
            ))
            &&& (ys.start >= split ==> upper == 0)
            &&& (split < ys.end ==> is_rounded_mean(
                lower,
                rect_total(channel, xs.start as int, xs.end as int, split, ys.end as int),
                span_len(xs) * (ys.end - split),
            ))
            &&& (split >= ys.end ==> lower == 0)
            &&& (ys.start < split && (forall|x: int, y: int|
                xs.start <= x < xs.end && ys.start <= y < split ==> #[trigger] pixels[(y * width + x) * 3 + c] == v)
                ==> upper == v)
            &&& (split < ys.end && (forall|x: int, y: int|
                xs.start <= x < xs.end && split <= y < ys.end ==> #[trigger] pixels[(y * width + x) * 3 + c] == v)
                ==> lower == v)
        }),
{
    assert(rgb_channel(pixels, width, c) =~= (|x: int, y: int| pixels[(y * width + x) * 3 + c] as int));
    let up = upper_half(ys);
    let low = lower_half(ys);
    if up.start < up.end {
        lemma_channel_mean(pixels, width, xs, up, c, v as int);
    } else {
        assert(span_len(xs) * span_len(up) == 0) by (nonlinear_arith)
            requires
                span_len(up) == 0,
        ;
    }
    if low.start < low.end {
        lemma_channel_mean(pixels, width, xs, low, c, v as int);
    } else {
        assert(span_len(xs) * span_len(low) == 0) by (nonlinear_arith)
            requires
                span_len(low) == 0,
        ;
    }
}

proof fn lemma_grey_mean(pixels: Seq<u8>, width: int, xs: AxisSpan, ys: AxisSpan, v: int)
    requires
        xs.start < xs.end,
        ys.start < ys.end,
    ensures
        ({
            let n = span_len(xs) * span_len(ys);
            let mean = cell_average(gray_term(pixels, width), xs, ys);
            &&& n > 0
            &&& 0 <= mean <= 255
            &&& is_rounded_mean(
                mean,
                rect_total(
                    |x: int, y: int| pixels[y * width + x] as int,
                    xs.start as int,
                    xs.end as int,
                    ys.start as int,
                    ys.end as int,
                ),
                n,
            )
            &&& (forall|x: int, y: int|
                xs.start <= x < xs.end && ys.start <= y < ys.end ==> #[trigger] pixels[y * width + x] == v) ==> mean
                == v
        }),
{
    let f = gray_term(pixels, width);
    assert(f =~= (|x: int, y: int| pixels[y * width + x] as int));
    let x0 = xs.start as int;
    let x1 = xs.end as int;
    let y0 = ys.start as int;
    let y1 = ys.end as int;
    let n = span_len(xs) * span_len(ys);
    assert(n == (x1 - x0) * (y1 - y0));
    assert(n > 0) by (nonlinear_arith)
        requires
            n == (x1 - x0) * (y1 - y0),
            x0 < x1,
            y0 < y1,
    ;
    assert forall|x: int, y: int| x0 <= x < x1 && y0 <= y < y1 implies 0 <= #[trigger] f(x, y) <= 255 by {}
    lemma_rect_total_bounded(f, x0, x1, y0, y1);
    let sum = rect_total(f, x0, x1, y0, y1);
    let q = (sum + n / 2) / n;
    assert(q * n <= sum + n / 2 < q * n + n && q <= 255) by (nonlinear_arith)
        requires
            q == (sum + n / 2) / n,
            n > 0,
            0 <= sum <= 255 * n,
    ;
    assert(cell_average(f, xs, ys) == q);
    if forall|x: int, y: int| xs.start <= x < xs.end && ys.start <= y < ys.end ==> #[trigger] pixels[y * width + x] == v {
        assert forall|x: int, y: int| x0 <= x < x1 && y0 <= y < y1 implies #[trigger] f(x, y) == v by {
            assert(pixels[y * width + x] == v);
        }
        lemma_rect_total_const(f, x0, x1, y0, y1, v);
        assert(q == v) by (nonlinear_arith)
            requires
                q * n <= sum + n / 2 < q * n + n,
                sum == v * n,
                n > 0,
        ;
    }
}

/// A grey shade cell's glyph and colour come from the rounded mean grey of
/// the pixels it covers (0 when it covers none): the glyph is the shade
/// nearest that mean and the colour the palette grey nearest it, so a cell
/// of one grey `v` is drawn as the shade of `v` in the palette grey of `v`.
pub proof fn lemma_shade_luma_cell(pixels: Seq<u8>, width: int, xs: AxisSpan, ys: AxisSpan, v: u8)
    ensures
        ({
            let mean = cell_average(gray_term(pixels, width), xs, ys);
            let glyph = shade_luma_glyph(pixels, width, xs, ys);
            &&& 0 <= mean <= 255
            &&& glyph.0 == shade_code_point(shade_level(mean as u8)) as char
            &&& glyph.1 == nearest_gray_index(mean) as u8
            &&& (span_len(xs) * span_len(ys) == 0 ==> mean == 0)
            &&& (span_len(xs) * span_len(ys) > 0 ==> is_rounded_mean(
                mean,
                rect_total(
                    |x: int, y: int| pixels[y * width + x] as int,
                    xs.start as int,
                    xs.end as int,
                    ys.start as int,
                    ys.end as int,
                ),
                span_len(xs) * span_len(ys),
            ))
            &&& (span_len(xs) * span_len(ys) > 0 && (forall|x: int, y: int|
                xs.start <= x < xs.end && ys.start <= y < ys.end ==> #[trigger] pixels[y * width + x] == v)
                ==> mean == v)
        }),
{
    if span_len(xs) * span_len(ys) > 0 {
        assert(xs.start < xs.end && ys.start < ys.end) by (nonlinear_arith)
            requires
                span_len(xs) * span_len(ys) > 0,
                span_len(xs) == (if xs.start < xs.end { xs.end - xs.start } else { 0 }),
                span_len(ys) == (if ys.start < ys.end { ys.end - ys.start } else { 0 }),
        ;
        lemma_grey_mean(pixels, width, xs, ys, v as int);
    }
}

proof fn lemma_mask_bits(lit: spec_fn(int) -> bool, k: int)
    requires
        0 <= k < 6,
    ensures
        0 <= mask_of(lit) < 64,
        (((mask_of(lit) as u8) >> (k as u8)) & 1u8 == 1u8) == lit(k),
{
    let b0 = lit(0);
    let b1 = lit(1);
    let b2 = lit(2);
    let b3 = lit(3);
    let b4 = lit(4);
    let b5 = lit(5);
    let m = mask_of(lit) as u8;
    let w0: u8 = if b0 { 1 } else { 0 };
    let w1: u8 = if b1 { 2 } else { 0 };
    let w2: u8 = if b2 { 4 } else { 0 };
    let w3: u8 = if b3 { 8 } else { 0 };
    let w4: u8 = if b4 { 16 } else { 0 };
    let w5: u8 = if b5 { 32 } else { 0 };
    assert(m == w0 + w1 + w2 + w3 + w4 + w5);
    assert(((m >> 0u8) & 1u8 == 1u8) == b0 && ((m >> 1u8) & 1u8 == 1u8) == b1 && ((m >> 2u8) & 1u8 == 1u8)
        == b2 && ((m >> 3u8) & 1u8 == 1u8) == b3 && ((m >> 4u8) & 1u8 == 1u8) == b4 && ((m >> 5u8) & 1u8
        == 1u8) == b5) by (bit_vector)
        requires
            m == w0 + w1 + w2 + w3 + w4 + w5,
            w0 == (if b0 { 1u8 } else { 0u8 }),
            w1 == (if b1 { 2u8 } else { 0u8 }),
            w2 == (if b2 { 4u8 } else { 0u8 }),
            w3 == (if b3 { 8u8 } else { 0u8 }),
            w4 == (if b4 { 16u8 } else { 0u8 }),
            w5 == (if b5 { 32u8 } else { 0u8 }),
    ;
}

/// The sub-cell (0..6, `2 * row band + column band`) a pixel of a cell
/// falls in: column band 0 left of the column span's `mid_start`, row band
/// 0 above the row span's `mid_start`, 1 above its `high_start`, else 2.
pub open spec fn sub_cell(xs: AxisSpan, ys: AxisSpan, x: int, y: int) -> int {
    2 * (if y < ys.mid_start {
        0int
    } else if y < ys.high_start {
        1int
    } else {
        2int
    }) + (if x < xs.mid_start {
        0int
    } else {
        1int
    })
}

/// Bit `k` of a grey sextant cell's mask (upper-left 0, upper-right 1,
/// middle-left 2, middle-right 3, lower-left 4, lower-right 5) is set
/// exactly when sub-cell `k` holds pixels whose rounded mean grey is at
/// least 128; a cell without pixels or without extent has no bit set.
pub proof fn lemma_sextant_gray_mask(pixels: Seq<u8>, width: int, xs: AxisSpan, ys: AxisSpan, k: int)
    requires
        0 <= k < 6,
    ensures
        ({
            let mask = sextant_gray_cell(pixels, width, xs, ys).mask;
            let sum = rect_total(
                |x: int, y: int| if sub_cell(xs, ys, x, y) == k { pixels[y * width + x] as int } else { 0int },
                xs.start as int,
                xs.end as int,
                ys.start as int,
                ys.end as int,
            );
            let count = rect_total(
                |x: int, y: int| if sub_cell(xs, ys, x, y) == k { 1int } else { 0int },
                xs.start as int,
                xs.end as int,
                ys.start as int,
                ys.end as int,
            );
            &&& mask < 64
            &&& !cell_is_sampled(xs, ys) ==> mask == 0
            &&& cell_is_sampled(xs, ys) ==> (((mask >> (k as u8)) & 1u8 == 1u8) <==> (count > 0 && sum + count / 2
                >= 128 * count))
        }),
{
    if cell_is_sampled(xs, ys) {
        let g = gray_term(pixels, width);
        let lit = |j: int| sextant_average(g, xs, ys, j) >= SEXTANT_ON_THRESHOLD;
        lemma_mask_bits(lit, k);
        let f = in_sextant(g, xs, ys, k);
        let u = in_sextant(unit_term(), xs, ys, k);
        assert(f =~= (|x: int, y: int| if sub_cell(xs, ys, x, y) == k { pixels[y * width + x] as int } else { 0int }));
        assert(u =~= (|x: int, y: int| if sub_cell(xs, ys, x, y) == k { 1int } else { 0int }));
        let x0 = xs.start as int;
        let x1 = xs.end as int;
        let y0 = ys.start as int;
        let y1 = ys.end as int;
        let sum = rect_total(f, x0, x1, y0, y1);
        let count = rect_total(u, x0, x1, y0, y1);
        assert forall|x: int, y: int| x0 <= x < x1 && y0 <= y < y1 implies 0 <= #[trigger] u(x, y) <= 255 by {}
        lemma_rect_total_bounded(u, x0, x1, y0, y1);
        assert(count >= 0);
        if count > 0 {
            let q = (sum + count / 2) / count;
            assert(q >= 128 <==> sum + count / 2 >= 128 * count) by (nonlinear_arith)
                requires
                    q == (sum + count / 2) / count,
                    count > 0,
            ;
        }
        assert(lit(k) == (sextant_average(g, xs, ys, k) >= 128));
    } else {
        assert(mask_of(|k: int| false) == 0);
    }
}

/// Samples every cell of an RGB24 frame into sextant masks and colours, row-major.
fn sample_sextant_cells_rgb(
    pixels: &[u8],
    width: usize,
    height: usize,
    column_spans: &[AxisSpan],
    row_spans: &[AxisSpan],
) -> (cells: Vec<SextantRgbCell>)
    requires
        pixels@.len() == width * height * 3,
        grid_fits(column_spans@, row_spans@, width as int, height as int),
        column_spans@.len() * row_spans@.len() <= usize::MAX,
    ensures
        cells@.len() == column_spans@.len() * row_spans@.len(),
        forall|i: int|
            0 <= i < cells@.len() ==> (#[trigger] cells@[i]).mask == sextant_rgb_cell(pixels@, width as int, cell_column(column_spans@, i), cell_row(column_spans@, row_spans@, i)).0 && cells@[i].avg_rgb@ == sextant_rgb_cell(pixels@, width as int, cell_column(column_spans@, i), cell_row(column_spans@, row_spans@, i)).1,
{
    let columns = column_spans.len();
    let rows = row_spans.len();
    let mut cells: Vec<SextantRgbCell> = Vec::with_capacity(saturating_mul_usize(columns, rows));
    let mut row: usize = 0;
    while row < rows
        invariant
            0 <= row <= rows,
            columns == column_spans@.len(),
            rows == row_spans@.len(),
            columns * rows <= usize::MAX,
            pixels@.len() == width * height * 3,
            grid_fits(column_spans@, row_spans@, width as int, height as int),
            cells@.len() == row * columns,
            forall|i: int|
                0 <= i < cells@.len() ==> (#[trigger] cells@[i]).mask == sextant_rgb_cell(pixels@, width as int, cell_column(column_spans@, i), cell_row(column_spans@, row_spans@, i)).0 && cells@[i].avg_rgb@ == sextant_rgb_cell(pixels@, width as int, cell_column(column_spans@, i), cell_row(column_spans@, row_spans@, i)).1,
        decreases rows - row,
    {
        let mut column: usize = 0;
        while column < columns
            invariant
                0 <= column <= columns,
                row < rows,
                columns == column_spans@.len(),
                rows == row_spans@.len(),
                columns * rows <= usize::MAX,
                pixels@.len() == width * height * 3,
                grid_fits(column_spans@, row_spans@, width as int, height as int),
                cells@.len() == row * columns + column,
                forall|i: int|
                    0 <= i < cells@.len() ==> (#[trigger] cells@[i]).mask == sextant_rgb_cell(pixels@, width as int, cell_column(column_spans@, i), cell_row(column_spans@, row_spans@, i)).0 && cells@[i].avg_rgb@ == sextant_rgb_cell(pixels@, width as int, cell_column(column_spans@, i), cell_row(column_spans@, row_spans@, i)).1,
            decreases columns - column,
        {
            proof {
                lemma_row_major(row * columns + column, row as int, column as int, columns as int);
                assert(span_len(column_spans@[column as int]) * span_len(row_spans@[row as int])
                    <= MAX_CELL_PIXELS);
            }
            let cell = sample_sextant_cell_rgb(pixels, width, height, column_spans[column], row_spans[row]);
            cells.push(cell);
            column += 1;
        }
        assert(row * columns + columns == (row + 1) * columns) by (nonlinear_arith);
        row += 1;
    }
    assert(rows * columns == columns * rows) by (nonlinear_arith);
    cells
}

/// Samples the mean grey of every cell of a grey frame, row-major.
fn sample_shade_cells_gray(
    pixels: &[u8],
    width: usize,
    height: usize,
    column_spans: &[AxisSpan],
    row_spans: &[AxisSpan],
) -> (cells: Vec<ShadeGrayCell>)
    requires
        pixels@.len() == width * height,
        grid_fits(column_spans@, row_spans@, width as int, height as int),
        column_spans@.len() * row_spans@.len() <= usize::MAX,
    ensures
        cells@.len() == column_spans@.len() * row_spans@.len(),
        forall|i: int|
            0 <= i < cells@.len() ==> #[trigger] cells@[i].avg_luma as int == cell_average(gray_term(pixels@, width as int), cell_column(column_spans@, i), cell_row(column_spans@, row_spans@, i)),
{
    let columns = column_spans.len();
    let rows = row_spans.len();
    let mut cells: Vec<ShadeGrayCell> = Vec::with_capacity(saturating_mul_usize(columns, rows));
    let mut row: usize = 0;
    while row < rows
        invariant
            0 <= row <= rows,
            columns == column_spans@.len(),
            rows == row_spans@.len(),
            columns * rows <= usize::MAX,
            pixels@.len() == width * height,
            grid_fits(column_spans@, row_spans@, width as int, height as int),
            cells@.len() == row * columns,
            forall|i: int|
                0 <= i < cells@.len() ==> #[trigger] cells@[i].avg_luma as int == cell_average(gray_term(pixels@, width as int), cell_column(column_spans@, i), cell_row(column_spans@, row_spans@, i)),
        decreases rows - row,
    {
        let mut column: usize = 0;
        while column < columns
            invariant
                0 <= column <= columns,
                row < rows,
                columns == column_spans@.len(),
                rows == row_spans@.len(),
                columns * rows <= usize::MAX,
                pixels@.len() == width * height,
                grid_fits(column_spans@, row_spans@, width as int, height as int),
                cells@.len() == row * columns + column,
                forall|i: int|
                    0 <= i < cells@.len() ==> #[trigger] cells@[i].avg_luma as int == cell_average(gray_term(pixels@, width as int), cell_column(column_spans@, i), cell_row(column_spans@, row_spans@, i)),
            decreases columns - column,
        {
            proof {
                lemma_row_major(row * columns + column, row as int, column as int, columns as int);
                assert(span_len(column_spans@[column as int]) * span_len(row_spans@[row as int])
                    <= MAX_CELL_PIXELS);
            }
            let cell = ShadeGrayCell {
                avg_luma: sample_gray_region(pixels, width, height, column_spans[column], row_spans[row]),
            };
            cells.push(cell);
            column += 1;
        }
        assert(row * columns + columns == (row + 1) * columns) by (nonlinear_arith);
        row += 1;
    }
    assert(rows * columns == columns * rows) by (nonlinear_arith);
    cells
}

/// Samples the mean colour, and the luma of that colour, of every cell of an RGB24 frame, row-major.
fn sample_shade_cells_rgb(
    pixels: &[u8],
    width: usize,
    height: usize,
    column_spans: &[AxisSpan],
    row_spans: &[AxisSpan],
) -> (cells: Vec<ShadeRgbCell>)
    requires
        pixels@.len() == width * height * 3,
        grid_fits(column_spans@, row_spans@, width as int, height as int),
        column_spans@.len() * row_spans@.len() <= usize::MAX,
    ensures
        cells@.len() == column_spans@.len() * row_spans@.len(),
        forall|i: int|
            0 <= i < cells@.len() ==> (#[trigger] cells@[i]).avg_luma == shade_rgb_cell(pixels@, width as int, cell_column(column_spans@, i), cell_row(column_spans@, row_spans@, i)).0 && cells@[i].avg_rgb@ == shade_rgb_cell(pixels@, width as int, cell_column(column_spans@, i), cell_row(column_spans@, row_spans@, i)).1,
{
    let columns = column_spans.len();
    let rows = row_spans.len();
    let mut cells: Vec<ShadeRgbCell> = Vec::with_capacity(saturating_mul_usize(columns, rows));
    let mut row: usize = 0;
    while row < rows
        invariant
            0 <= row <= rows,
            columns == column_spans@.len(),
            rows == row_spans@.len(),
            columns * rows <= usize::MAX,
            pixels@.len() == width * height * 3,
            grid_fits(column_spans@, row_spans@, width as int, height as int),
            cells@.len() == row * columns,
            forall|i: int|
                0 <= i < cells@.len() ==> (#[trigger] cells@[i]).avg_luma == shade_rgb_cell(pixels@, width as int, cell_column(column_spans@, i), cell_row(column_spans@, row_spans@, i)).0 && cells@[i].avg_rgb@ == shade_rgb_cell(pixels@, width as int, cell_column(column_spans@, i), cell_row(column_spans@, row_spans@, i)).1,
        decreases rows - row,
    {
        let mut column: usize = 0;
        while column < columns
            invariant
                0 <= column <= columns,
                row < rows,
                columns == column_spans@.len(),
                rows == row_spans@.len(),
                columns * rows <= usize::MAX,
                pixels@.len() == width * height * 3,
                grid_fits(column_spans@, row_spans@, width as int, height as int),
                cells@.len() == row * columns + column,
                forall|i: int|
                    0 <= i < cells@.len() ==> (#[trigger] cells@[i]).avg_luma == shade_rgb_cell(pixels@, width as int, cell_column(column_spans@, i), cell_row(column_spans@, row_spans@, i)).0 && cells@[i].avg_rgb@ == shade_rgb_cell(pixels@, width as int, cell_column(column_spans@, i), cell_row(column_spans@, row_spans@, i)).1,
            decreases columns - column,
        {
            proof {
                lemma_row_major(row * columns + column, row as int, column as int, columns as int);
                assert(span_len(column_spans@[column as int]) * span_len(row_spans@[row as int])
                    <= MAX_CELL_PIXELS);
            }
            let avg_rgb = sample_rgb_region(pixels, width, height, column_spans[column], row_spans[row]);
            let cell = ShadeRgbCell { avg_luma: luma601_u8(avg_rgb[0], avg_rgb[1], avg_rgb[2]), avg_rgb };
            assert(cell.avg_rgb@ =~= shade_rgb_cell(pixels@, width as int, column_spans@[column as int], row_spans@[row as int]).1);
            cells.push(cell);
            column += 1;
        }
        assert(row * columns + columns == (row + 1) * columns) by (nonlinear_arith);
        row += 1;
    }
    assert(rows * columns == columns * rows) by (nonlinear_arith);
    cells
}

/// Where a row span splits into an upper and a lower half: its first pixel
/// of the middle band, kept within the span (the end for an empty span).
pub open spec fn half_split(ys: AxisSpan) -> usize {
    if ys.start >= ys.end {
        ys.end
    } else if ys.mid_start < ys.start {
        ys.start
    } else if ys.mid_start > ys.end {
        ys.end
    } else {
        ys.mid_start
    }
}

/// The upper half of a row span.
pub open spec fn upper_half(ys: AxisSpan) -> AxisSpan {
    AxisSpan {
        start: ys.start,
        end: half_split(ys),
        mid_start: half_split(ys),
        high_start: half_split(ys),
        narrow: ys.narrow,
    }
}

/// The lower half of a row span.
pub open spec fn lower_half(ys: AxisSpan) -> AxisSpan {
    AxisSpan { start: half_split(ys), end: ys.end, mid_start: ys.end, high_start: ys.end, narrow: ys.narrow }
}

/// The mean colour, channel by channel, of the pixels of an RGB24 frame
/// that a cell covers (black when it covers none).
pub open spec fn mean_rgb(pixels: Seq<u8>, width: int, xs: AxisSpan, ys: AxisSpan) -> (u8, u8, u8) {
    (
        cell_average(channel_term(pixels, width, 0), xs, ys) as u8,
        cell_average(channel_term(pixels, width, 1), xs, ys) as u8,
        cell_average(channel_term(pixels, width, 2), xs, ys) as u8,
    )
}

/// The colours of a half-block cell: the mean colour of its upper half and
/// of its lower half.
pub open spec fn half_block_colours(pixels: Seq<u8>, width: int, xs: AxisSpan, ys: AxisSpan) -> (
    (u8, u8, u8),
    (u8, u8, u8),
) {
    (mean_rgb(pixels, width, xs, upper_half(ys)), mean_rgb(pixels, width, xs, lower_half(ys)))
}

/// Splits a row span into its upper and lower halves.
fn half_spans(ys: AxisSpan) -> (r: (AxisSpan, AxisSpan))
    ensures
        r.0 == upper_half(ys),
        r.1 == lower_half(ys),
        span_len(r.0) + span_len(r.1) == span_len(ys),
        r.0.end <= ys.end || ys.start >= ys.end,
{
    let split = if ys.start >= ys.end {
        ys.end
    } else if ys.mid_start < ys.start {
        ys.start
    } else if ys.mid_start > ys.end {
        ys.end
    } else {
        ys.mid_start
    };
    (
        AxisSpan { start: ys.start, end: split, mid_start: split, high_start: split, narrow: ys.narrow },
        AxisSpan { start: split, end: ys.end, mid_start: ys.end, high_start: ys.end, narrow: ys.narrow },
    )
}

/// Samples the colours of the upper and lower half of every cell of an
/// RGB24 frame, row-major.
fn sample_half_block_cells_rgb(
    pixels: &[u8],
    width: usize,
    height: usize,
    column_spans: &[AxisSpan],
    row_spans: &[AxisSpan],
) -> (cells: Vec<((u8, u8, u8), (u8, u8, u8))>)
    requires
        pixels@.len() == width * height * 3,
        grid_fits(column_spans@, row_spans@, width as int, height as int),
        column_spans@.len() * row_spans@.len() <= usize::MAX,
    ensures
        cells@.len() == column_spans@.len() * row_spans@.len(),
        forall|i: int|
            0 <= i < cells@.len() ==> #[trigger] cells@[i] == half_block_colours(
                pixels@,
                width as int,
                cell_column(column_spans@, i),
                cell_row(column_spans@, row_spans@, i),
            ),
{
    let columns = column_spans.len();
    let rows = row_spans.len();
    let mut cells: Vec<((u8, u8, u8), (u8, u8, u8))> = Vec::with_capacity(saturating_mul_usize(columns, rows));
    let mut row: usize = 0;
    while row < rows
        invariant
            0 <= row <= rows,
            columns == column_spans@.len(),
            rows == row_spans@.len(),
            columns * rows <= usize::MAX,
            pixels@.len() == width * height * 3,
            grid_fits(column_spans@, row_spans@, width as int, height as int),
            cells@.len() == row * columns,
            forall|i: int|
                0 <= i < cells@.len() ==> #[trigger] cells@[i] == half_block_colours(
                    pixels@,
                    width as int,
                    cell_column(column_spans@, i),
                    cell_row(column_spans@, row_spans@, i),
                ),
        decreases rows - row,
    {
        let (upper, lower) = half_spans(row_spans[row]);
        let mut column: usize = 0;
        while column < columns
            invariant
                0 <= column <= columns,
                row < rows,
                columns == column_spans@.len(),
                rows == row_spans@.len(),
                columns * rows <= usize::MAX,
                pixels@.len() == width * height * 3,
                grid_fits(column_spans@, row_spans@, width as int, height as int),
                upper == upper_half(row_spans@[row as int]),
                lower == lower_half(row_spans@[row as int]),
                cells@.len() == row * columns + column,
                forall|i: int|
                    0 <= i < cells@.len() ==> #[trigger] cells@[i] == half_block_colours(
                        pixels@,
                        width as int,
                        cell_column(column_spans@, i),
                        cell_row(column_spans@, row_spans@, i),
                    ),
            decreases columns - column,
        {
            let xs = column_spans[column];
            proof {
                lemma_row_major(row * columns + column, row as int, column as int, columns as int);
                let ys = row_spans@[row as int];
                assert(span_len(xs) * span_len(ys) <= MAX_CELL_PIXELS);
                assert(span_fits(ys, height as int));
                assert(span_len(upper) + span_len(lower) == span_len(ys));
                assert(span_len(xs) * span_len(upper) <= span_len(xs) * span_len(ys)) by (nonlinear_arith)
                    requires
                        0 <= span_len(upper) <= span_len(ys),
                        0 <= span_len(xs),
                ;
                assert(span_len(xs) * span_len(lower) <= span_len(xs) * span_len(ys)) by (nonlinear_arith)
                    requires
                        0 <= span_len(lower) <= span_len(ys),
                        0 <= span_len(xs),
                ;
            }
            let top = sample_rgb_region(pixels, width, height, xs, upper);
            let bottom = sample_rgb_region(pixels, width, height, xs, lower);
            let cell = ((top[0], top[1], top[2]), (bottom[0], bottom[1], bottom[2]));
            assert(cell == half_block_colours(pixels@, width as int, xs, row_spans@[row as int]));
            cells.push(cell);
            column += 1;
        }
        assert(row * columns + columns == (row + 1) * columns) by (nonlinear_arith);
        row += 1;
    }
    assert(rows * columns == columns * rows) by (nonlinear_arith);
    cells
}

/// Cells `0..columns * rows` of a grid, row-major, each given by `f` of its column and row span.
pub open spec fn grid_cells<T>(
    column_spans: Seq<AxisSpan>,
    row_spans: Seq<AxisSpan>,
    f: spec_fn(AxisSpan, AxisSpan) -> T,
) -> Seq<T> {
    Seq::new(
        column_spans.len() * row_spans.len(),
        |i: int| f(cell_column(column_spans, i), cell_row(column_spans, row_spans, i)),
    )
}

/// The glyph and palette colour of a grey sextant cell.
pub open spec fn sextant_luma_glyph(pixels: Seq<u8>, width: int, xs: AxisSpan, ys: AxisSpan) -> (char, u8) {
    let c = sextant_gray_cell(pixels, width, xs, ys);
    (sextant_code_point(c.mask) as char, nearest_gray_index(c.avg_luma as int) as u8)
}

/// The glyph and colour of a colour sextant cell.
pub open spec fn sextant_rgb_glyph(pixels: Seq<u8>, width: int, xs: AxisSpan, ys: AxisSpan) -> (char, (u8, u8, u8)) {
    let c = sextant_rgb_cell(pixels, width, xs, ys);
    (sextant_code_point(c.0) as char, (c.1[0], c.1[1], c.1[2]))
}

/// The glyph and palette colour of a grey shade cell.
pub open spec fn shade_luma_glyph(pixels: Seq<u8>, width: int, xs: AxisSpan, ys: AxisSpan) -> (char, u8) {
    let avg = cell_average(gray_term(pixels, width), xs, ys);
    (shade_code_point(shade_level(avg as u8)) as char, nearest_gray_index(avg) as u8)
}

/// The glyph and colour of a colour shade cell: the shade of the mean colour's luma.
pub open spec fn shade_rgb_glyph(pixels: Seq<u8>, width: int, xs: AxisSpan, ys: AxisSpan) -> (char, (u8, u8, u8)) {
    let c = shade_rgb_cell(pixels, width, xs, ys);
    (shade_code_point(shade_level(c.0)) as char, (c.1[0], c.1[1], c.1[2]))
}

/// No sextant glyph is a line feed.
proof fn lemma_sextant_glyph_not_newline(mask: u8)
    ensures
        (sextant_code_point(mask) as char) != '\n',
{
}

/// No shade glyph is a line feed.
proof fn lemma_shade_glyph_not_newline(level: int)
    ensures
        (shade_code_point(level) as char) != '\n',
{
}

proof fn lemma_sextant_luma_cells_no_newline(pixels: Seq<u8>, width: int, cs: Seq<AxisSpan>, rs: Seq<AxisSpan>)
    ensures
        glyphs_without_newline(
            grid_cells(cs, rs, |xs: AxisSpan, ys: AxisSpan| sextant_luma_glyph(pixels, width, xs, ys)),
        ),
{
    let cells = grid_cells(cs, rs, |xs: AxisSpan, ys: AxisSpan| sextant_luma_glyph(pixels, width, xs, ys));
    assert forall|k: int| 0 <= k < cells.len() implies (#[trigger] cells[k]).0 != '\n' by {
        lemma_sextant_glyph_not_newline(
            sextant_gray_cell(pixels, width, cell_column(cs, k), cell_row(cs, rs, k)).mask,
        );
    }
}

proof fn lemma_sextant_rgb_cells_no_newline(pixels: Seq<u8>, width: int, cs: Seq<AxisSpan>, rs: Seq<AxisSpan>)
    ensures
        glyphs_without_newline(
            grid_cells(cs, rs, |xs: AxisSpan, ys: AxisSpan| sextant_rgb_glyph(pixels, width, xs, ys)),
        ),
{
    let cells = grid_cells(cs, rs, |xs: AxisSpan, ys: AxisSpan| sextant_rgb_glyph(pixels, width, xs, ys));
    assert forall|k: int| 0 <= k < cells.len() implies (#[trigger] cells[k]).0 != '\n' by {
        lemma_sextant_glyph_not_newline(
            sextant_rgb_cell(pixels, width, cell_column(cs, k), cell_row(cs, rs, k)).0,
        );
    }
}

proof fn lemma_shade_luma_cells_no_newline(pixels: Seq<u8>, width: int, cs: Seq<AxisSpan>, rs: Seq<AxisSpan>)
    ensures
        glyphs_without_newline(
            grid_cells(cs, rs, |xs: AxisSpan, ys: AxisSpan| shade_luma_glyph(pixels, width, xs, ys)),
        ),
{
    let cells = grid_cells(cs, rs, |xs: AxisSpan, ys: AxisSpan| shade_luma_glyph(pixels, width, xs, ys));
    assert forall|k: int| 0 <= k < cells.len() implies (#[trigger] cells[k]).0 != '\n' by {
        let avg = cell_average(gray_term(pixels, width), cell_column(cs, k), cell_row(cs, rs, k));
        lemma_shade_glyph_not_newline(shade_level(avg as u8));
    }
}

proof fn lemma_shade_rgb_cells_no_newline(pixels: Seq<u8>, width: int, cs: Seq<AxisSpan>, rs: Seq<AxisSpan>)
    ensures
        glyphs_without_newline(
            grid_cells(cs, rs, |xs: AxisSpan, ys: AxisSpan| shade_rgb_glyph(pixels, width, xs, ys)),
        ),
{
    let cells = grid_cells(cs, rs, |xs: AxisSpan, ys: AxisSpan| shade_rgb_glyph(pixels, width, xs, ys));
    assert forall|k: int| 0 <= k < cells.len() implies (#[trigger] cells[k]).0 != '\n' by {
        let c = shade_rgb_cell(pixels, width, cell_column(cs, k), cell_row(cs, rs, k));
        lemma_shade_glyph_not_newline(shade_level(c.0));
    }
}

/// Counters of the last frame a unicode-block renderer drew.
#[derive(Clone, Copy, Debug, PartialEq, Eq)]
pub struct UnicodeBlocksRenderStats {
    /// Colour escapes written.
    pub sgr_change_count: u32,
    pub cache_hits: u32,
    pub cache_misses: u32,
    /// Samples taken: six per cell for sextants, one per cell for shades.
    pub sample_count: u32,
    /// Glyph lookups: one per cell.
    pub lookup_count: u32,
    /// Bytes of output.
    pub output_bytes: u32,
}

/// The statistics of a frame of `cells` cells, `samples_per_cell` samples
/// each, with `changes` colour escapes and `output_len` bytes.
pub open spec fn blocks_stats(cells: int, samples_per_cell: int, changes: int, output_len: int) -> UnicodeBlocksRenderStats {
    UnicodeBlocksRenderStats {
        sgr_change_count: saturate_u32(changes),
        cache_hits: 0,
        cache_misses: 0,
        sample_count: saturate_u32(saturate_usize(saturate_usize(cells) * samples_per_cell) as int),
        lookup_count: saturate_u32(saturate_usize(cells) as int),
        output_bytes: saturate_u32(output_len),
    }
}

/// Renders frames as Unicode block characters (sextant mosaics or shades),
/// coloured by the xterm palette or by truecolor, and keeps the last frame.
pub struct UnicodeBlocksRenderer {
    cell_width: usize,
    cell_height: usize,
    fg_sgr: Vec<Vec<u8>>,
    gray_lut: [u8; 256],
    last_output: Vec<u8>,
    last_stats: UnicodeBlocksRenderStats,
}

impl UnicodeBlocksRenderer {
    #[verifier::type_invariant]
    spec fn well_formed(self) -> bool {
        &&& self.cell_width > 0
        &&& self.cell_height > 0
        &&& is_fg_sgr_table(self.fg_sgr@)
        &&& is_gray_lut(self.gray_lut@)
        &&& valid_utf8(self.last_output@)
    }

    /// The configured cell width.
    pub closed spec fn spec_cell_width(&self) -> usize {
        self.cell_width
    }

    /// The configured cell height.
    pub closed spec fn spec_cell_height(&self) -> usize {
        self.cell_height
    }

    /// The bytes of the last frame drawn.
    pub closed spec fn spec_output(&self) -> Seq<u8> {
        self.last_output@
    }

    /// The statistics of the last frame drawn.
    pub closed spec fn spec_stats(&self) -> UnicodeBlocksRenderStats {
        self.last_stats
    }

    /// A renderer for cells of the given size, with no frame drawn yet.
    pub fn new(cell_width: usize, cell_height: usize) -> (r: Result<Self, RenderError>)
        ensures
            r is Err <==> cell_dimensions_error(cell_width, cell_height) is Some,
            r matches Err(e) ==> cell_dimensions_error(cell_width, cell_height) == Some(e),
            r matches Ok(renderer) ==> {
                &&& renderer.spec_cell_width() == cell_width
                &&& renderer.spec_cell_height() == cell_height
                &&& renderer.spec_output() == Seq::<u8>::empty()
                &&& renderer.spec_stats() == blocks_stats(0, 0, 0, 0)
            },
    {
        validate_cell_dimensions(cell_width, cell_height)?;
        proof {
            lemma_empty_valid();
        }
        Ok(Self {
            cell_width,
            cell_height,
            fg_sgr: build_fg_sgr(),
            gray_lut: build_gray_lut(),
            last_output: Vec::new(),
            last_stats: UnicodeBlocksRenderStats {
                sgr_change_count: 0,
                cache_hits: 0,
                cache_misses: 0,
                sample_count: 0,
                lookup_count: 0,
                output_bytes: 0,
            },
        })
    }

    /// Changes the cell size; the last frame is kept.
    pub fn reconfigure(&mut self, cell_width: usize, cell_height: usize) -> (r: Result<(), RenderError>)
        ensures
            r is Err <==> cell_dimensions_error(cell_width, cell_height) is Some,
            r matches Err(e) ==> cell_dimensions_error(cell_width, cell_height) == Some(e) && *final(self)
                == *old(self),
            r is Ok ==> final(self).spec_cell_width() == cell_width && final(self).spec_cell_height()
                == cell_height && final(self).spec_output() == old(self).spec_output()
                && final(self).spec_stats() == old(self).spec_stats(),
    {
        proof {
            use_type_invariant(&*self);
        }
        validate_cell_dimensions(cell_width, cell_height)?;
        self.cell_width = cell_width;
        self.cell_height = cell_height;
        Ok(())
    }

    /// The configured cell width.
    pub fn cell_width(&self) -> (w: usize)
        ensures
            w == self.spec_cell_width(),
    {
        self.cell_width
    }

    /// The configured cell height.
    pub fn cell_height(&self) -> (h: usize)
        ensures
            h == self.spec_cell_height(),
    {
        self.cell_height
    }

    /// The bytes of the last frame drawn.
    pub fn output_bytes(&self) -> (bytes: &[u8])
        ensures
            bytes@ == self.spec_output(),
    {
        self.last_output.as_slice()
    }

    /// The last frame drawn, as text.
    pub fn output_text(&self) -> (text: String)
        ensures
            text@ == decode_utf8(self.spec_output()),
    {
        proof {
            use_type_invariant(self);
        }
        string_from_utf8_lossy(self.last_output.as_slice())
    }

    /// The statistics of the last frame drawn.
    pub fn stats(&self) -> (stats: UnicodeBlocksRenderStats)
        ensures
            stats == self.spec_stats(),
    {
        self.last_stats
    }

    /// Draws a grey frame as sextant mosaics: each cell's glyph lights the
    /// sub-cells whose mean grey reaches the threshold, coloured by the
    /// palette grey nearest the cell's mean; blank cells select no colour.
    /// `column_spans` and `row_spans` give the pixels each column and row of
    /// the grid covers. A frame of one or more rows is text of exactly that
    /// many lines. On error nothing changes.
    pub fn render_sextant_luma(
        &mut self,
        pixels: &[u8],
        width: usize,
        height: usize,
        columns: usize,
        rows: usize,
        column_spans: &[AxisSpan],
        row_spans: &[AxisSpan],
    ) -> (r: Result<(), RenderError>)
        requires
            column_spans@.len() == columns,
            row_spans@.len() == rows,
            grid_fits(column_spans@, row_spans@, width as int, height as int),
            columns * rows <= usize::MAX,
        ensures
            r is Err <==> grayscale_input_error(pixels@.len() as int, width, height, columns, rows) is Some,
            r matches Err(e) ==> grayscale_input_error(pixels@.len() as int, width, height, columns, rows)
                == Some(e) && *final(self) == *old(self),
            final(self).spec_cell_width() == old(self).spec_cell_width(),
            final(self).spec_cell_height() == old(self).spec_cell_height(),
            r is Ok ==> {
                let cells = grid_cells(
                    column_spans@,
                    row_spans@,
                    |xs: AxisSpan, ys: AxisSpan| sextant_luma_glyph(pixels@, width as int, xs, ys),
                );
                &&& final(self).spec_output() == frame(
                    palette_frame_row(cells, columns as int, true, None),
                    rows as int,
                )
                &&& final(self).spec_stats() == blocks_stats(
                    columns * rows,
                    6,
                    rows_total(palette_frame_changes(cells, columns as int, true, None), rows as int),
                    final(self).spec_output().len() as int,
                )
                &&& rows >= 1 ==> output_lines(decode_utf8(final(self).spec_output())).len() == rows
            },
    {
        proof {
            use_type_invariant(&*self);
        }
        validate_grayscale_input(pixels, width, height, columns, rows)?;
        let sampled_cells = sample_sextant_cells_gray(pixels, width, height, column_spans, row_spans);
        let ghost expected = grid_cells(
            column_spans@,
            row_spans@,
            |xs: AxisSpan, ys: AxisSpan| sextant_luma_glyph(pixels@, width as int, xs, ys),
        );
        let cell_count = sampled_cells.len();
        let mut glyphs: Vec<(char, u8)> = Vec::with_capacity(cell_count);
        let mut i: usize = 0;
        while i < cell_count
            invariant
                0 <= i <= cell_count,
                cell_count == sampled_cells@.len(),
                cell_count == columns * rows,
                columns == column_spans@.len(),
                rows == row_spans@.len(),
                is_gray_lut(self.gray_lut@),
                glyphs@.len() == i,
                expected == grid_cells(
                    column_spans@,
                    row_spans@,
                    |xs: AxisSpan, ys: AxisSpan| sextant_luma_glyph(pixels@, width as int, xs, ys),
                ),
                forall|k: int|
                    0 <= k < cell_count ==> #[trigger] sampled_cells@[k] == sextant_gray_cell(
                        pixels@,
                        width as int,
                        cell_column(column_spans@, k),
                        cell_row(column_spans@, row_spans@, k),
                    ),
                forall|k: int| 0 <= k < i ==> #[trigger] glyphs@[k] == expected[k],
            decreases cell_count - i,
        {
            let cell = sampled_cells[i];
            let glyph = sextant_char(cell.mask);
            proof {
                lemma_gray_lut_entry(self.gray_lut@, cell.avg_luma as int);
                char_u32_cast(glyph, glyph as u32);
            }
            glyphs.push((glyph, self.gray_lut[cell.avg_luma as usize]));
            i += 1;
        }
        assert(glyphs@ =~= expected);
        let mut output: Vec<u8> = Vec::new();
        let sgr_change_count = append_palette_frame(&mut output, &glyphs, columns, rows, &self.fg_sgr, true, None);
        assert(output@ =~= frame(palette_frame_row(expected, columns as int, true, None), rows as int));
        proof {
            lemma_palette_frame_valid(expected, columns as int, true, None, rows as int);
            lemma_sextant_luma_cells_no_newline(pixels@, width as int, column_spans@, row_spans@);
            if rows >= 1 {
                lemma_palette_frame_lines(expected, columns as int, rows as int, true, None);
            }
        }
        let cells = saturating_mul_usize(columns, rows);
        let sample_count = saturating_u32(saturating_mul_usize(cells, 6));
        let lookup_count = saturating_u32(cells);
        let output_bytes = saturating_u32(output.len());
        self.last_output = output;
        self.last_stats = UnicodeBlocksRenderStats {
            sgr_change_count,
            cache_hits: 0,
            cache_misses: 0,
            sample_count,
            lookup_count,
            output_bytes,
        };
        Ok(())
    }
    /// Draws an RGB24 frame as sextant mosaics: each cell's glyph lights the
    /// sub-cells whose mean luma reaches the threshold, in the cell's mean
    /// colour as truecolor; blank cells select no colour. A frame of one or
    /// more rows is text of exactly that many lines. On error nothing changes.
    pub fn render_sextant_rgb(
        &mut self,
        pixels: &[u8],
        width: usize,
        height: usize,
        columns: usize,
        rows: usize,
        column_spans: &[AxisSpan],
        row_spans: &[AxisSpan],
    ) -> (r: Result<(), RenderError>)
        requires
            column_spans@.len() == columns,
            row_spans@.len() == rows,
            grid_fits(column_spans@, row_spans@, width as int, height as int),
            columns * rows <= usize::MAX,
        ensures
            r is Err <==> rgb_input_error(pixels@.len() as int, width, height, columns, rows) is Some,
            r matches Err(e) ==> rgb_input_error(pixels@.len() as int, width, height, columns, rows)
                == Some(e) && *final(self) == *old(self),
            final(self).spec_cell_width() == old(self).spec_cell_width(),
            final(self).spec_cell_height() == old(self).spec_cell_height(),
            r is Ok ==> {
                let cells = grid_cells(
                    column_spans@,
                    row_spans@,
                    |xs: AxisSpan, ys: AxisSpan| sextant_rgb_glyph(pixels@, width as int, xs, ys),
                );
                &&& final(self).spec_output() == frame(
                    rgb_frame_row(cells, columns as int),
                    rows as int,
                )
                &&& final(self).spec_stats() == blocks_stats(
                    columns * rows,
                    6,
                    rows_total(rgb_frame_changes(cells, columns as int), rows as int),
                    final(self).spec_output().len() as int,
                )
                &&& rows >= 1 ==> output_lines(decode_utf8(final(self).spec_output())).len() == rows
            },
    {
        proof {
            use_type_invariant(&*self);
        }
        validate_rgb_input(pixels, width, height, columns, rows)?;
        let sampled_cells = sample_sextant_cells_rgb(pixels, width, height, column_spans, row_spans);
        let ghost expected = grid_cells(
            column_spans@,
            row_spans@,
            |xs: AxisSpan, ys: AxisSpan| sextant_rgb_glyph(pixels@, width as int, xs, ys),
        );
        let cell_count = sampled_cells.len();
        let mut glyphs: Vec<(char, (u8, u8, u8))> = Vec::with_capacity(cell_count);
        let mut i: usize = 0;
        while i < cell_count
            invariant
                0 <= i <= cell_count,
                cell_count == sampled_cells@.len(),
                cell_count == columns * rows,
                columns == column_spans@.len(),
                rows == row_spans@.len(),
                is_gray_lut(self.gray_lut@),
                glyphs@.len() == i,
                expected == grid_cells(
                    column_spans@,
                    row_spans@,
                    |xs: AxisSpan, ys: AxisSpan| sextant_rgb_glyph(pixels@, width as int, xs, ys),
                ),
                forall|k: int|
                    0 <= k < cell_count ==> (#[trigger] sampled_cells@[k]).mask == sextant_rgb_cell(
                        pixels@,
                        width as int,
                        cell_column(column_spans@, k),
                        cell_row(column_spans@, row_spans@, k),
                    ).0 && sampled_cells@[k].avg_rgb@ == sextant_rgb_cell(
                        pixels@,
                        width as int,
                        cell_column(column_spans@, k),
                        cell_row(column_spans@, row_spans@, k),
                    ).1,
                forall|k: int| 0 <= k < i ==> #[trigger] glyphs@[k] == expected[k],
            decreases cell_count - i,
        {
            let cell = sampled_cells[i];
            let glyph = sextant_char(cell.mask);
            proof {
                char_u32_cast(glyph, glyph as u32);
            }
            glyphs.push((glyph, (cell.avg_rgb[0], cell.avg_rgb[1], cell.avg_rgb[2])));
            i += 1;
        }
        assert(glyphs@ =~= expected);
        let mut output: Vec<u8> = Vec::new();
        let sgr_change_count = append_rgb_frame(&mut output, &glyphs, columns, rows);
        assert(output@ =~= frame(rgb_frame_row(expected, columns as int), rows as int));
        proof {
            lemma_rgb_frame_valid(expected, columns as int, rows as int);
            lemma_sextant_rgb_cells_no_newline(pixels@, width as int, column_spans@, row_spans@);
            if rows >= 1 {
                lemma_rgb_frame_lines(expected, columns as int, rows as int);
            }
        }
        let cells = saturating_mul_usize(columns, rows);
        let sample_count = saturating_u32(saturating_mul_usize(cells, 6));
        let lookup_count = saturating_u32(cells);
        let output_bytes = saturating_u32(output.len());
        self.last_output = output;
        self.last_stats = UnicodeBlocksRenderStats {
            sgr_change_count,
            cache_hits: 0,
            cache_misses: 0,
            sample_count,
            lookup_count,
            output_bytes,
        };
        Ok(())
    }
    /// Draws a grey frame as shade blocks: each cell's glyph is the shade of
    /// its mean grey, coloured by the palette grey nearest that mean; blank
    /// cells select no colour. A frame of one or more rows is text of exactly
    /// that many lines. On error nothing changes.
    pub fn render_shade_blocks_luma(
        &mut self,
        pixels: &[u8],
        width: usize,
        height: usize,
        columns: usize,
        rows: usize,
        column_spans: &[AxisSpan],
        row_spans: &[AxisSpan],
    ) -> (r: Result<(), RenderError>)
        requires
            column_spans@.len() == columns,
            row_spans@.len() == rows,
            grid_fits(column_spans@, row_spans@, width as int, height as int),
            columns * rows <= usize::MAX,
        ensures
            r is Err <==> grayscale_input_error(pixels@.len() as int, width, height, columns, rows) is Some,
            r matches Err(e) ==> grayscale_input_error(pixels@.len() as int, width, height, columns, rows)
                == Some(e) && *final(self) == *old(self),
            final(self).spec_cell_width() == old(self).spec_cell_width(),
            final(self).spec_cell_height() == old(self).spec_cell_height(),
            r is Ok ==> {
                let cells = grid_cells(
                    column_spans@,
                    row_spans@,
                    |xs: AxisSpan, ys: AxisSpan| shade_luma_glyph(pixels@, width as int, xs, ys),
                );
                &&& final(self).spec_output() == frame(
                    palette_frame_row(cells, columns as int, true, None),
                    rows as int,
                )
                &&& final(self).spec_stats() == blocks_stats(
                    columns * rows,
                    1,
                    rows_total(palette_frame_changes(cells, columns as int, true, None), rows as int),
                    final(self).spec_output().len() as int,
                )
                &&& rows >= 1 ==> output_lines(decode_utf8(final(self).spec_output())).len() == rows
            },
    {
        proof {
            use_type_invariant(&*self);
        }
        validate_grayscale_input(pixels, width, height, columns, rows)?;
        let sampled_cells = sample_shade_cells_gray(pixels, width, height, column_spans, row_spans);
        let ghost expected = grid_cells(
            column_spans@,
            row_spans@,
            |xs: AxisSpan, ys: AxisSpan| shade_luma_glyph(pixels@, width as int, xs, ys),
        );
        let cell_count = sampled_cells.len();
        let mut glyphs: Vec<(char, u8)> = Vec::with_capacity(cell_count);
        let mut i: usize = 0;
        while i < cell_count
            invariant
                0 <= i <= cell_count,
                cell_count == sampled_cells@.len(),
                cell_count == columns * rows,
                columns == column_spans@.len(),
                rows == row_spans@.len(),
                is_gray_lut(self.gray_lut@),
                glyphs@.len() == i,
                expected == grid_cells(
                    column_spans@,
                    row_spans@,
                    |xs: AxisSpan, ys: AxisSpan| shade_luma_glyph(pixels@, width as int, xs, ys),
                ),
                forall|k: int|
                    0 <= k < cell_count ==> (#[trigger] sampled_cells@[k]).avg_luma as int == cell_average(
                        gray_term(pixels@, width as int),
                        cell_column(column_spans@, k),
                        cell_row(column_spans@, row_spans@, k),
                    ),
                forall|k: int| 0 <= k < i ==> #[trigger] glyphs@[k] == expected[k],
            decreases cell_count - i,
        {
            let cell = sampled_cells[i];
            let glyph = shade_char(cell.avg_luma);
            proof {
                lemma_gray_lut_entry(self.gray_lut@, cell.avg_luma as int);
                char_u32_cast(glyph, glyph as u32);
            }
            glyphs.push((glyph, self.gray_lut[cell.avg_luma as usize]));
            i += 1;
        }
        assert(glyphs@ =~= expected);
        let mut output: Vec<u8> = Vec::new();
        let sgr_change_count = append_palette_frame(&mut output, &glyphs, columns, rows, &self.fg_sgr, true, None);
        assert(output@ =~= frame(palette_frame_row(expected, columns as int, true, None), rows as int));
        proof {
            lemma_palette_frame_valid(expected, columns as int, true, None, rows as int);
            lemma_shade_luma_cells_no_newline(pixels@, width as int, column_spans@, row_spans@);
            if rows >= 1 {
                lemma_palette_frame_lines(expected, columns as int, rows as int, true, None);
            }
        }
        let cells = saturating_mul_usize(columns, rows);
        let sample_count = saturating_u32(saturating_mul_usize(cells, 1));
        let lookup_count = saturating_u32(cells);
        let output_bytes = saturating_u32(output.len());
        self.last_output = output;
        self.last_stats = UnicodeBlocksRenderStats {
            sgr_change_count,
            cache_hits: 0,
            cache_misses: 0,
            sample_count,
            lookup_count,
            output_bytes,
        };
        Ok(())
    }
    /// Draws an RGB24 frame as shade blocks: each cell's glyph is the shade of
    /// the luma of its mean colour, drawn in that colour as truecolor; blank
    /// cells select no colour. A frame of one or more rows is text of exactly
    /// that many lines. On error nothing changes.
    pub fn render_shade_blocks_rgb(
        &mut self,
        pixels: &[u8],
        width: usize,
        height: usize,
        columns: usize,
        rows: usize,
        column_spans: &[AxisSpan],
        row_spans: &[AxisSpan],
    ) -> (r: Result<(), RenderError>)
        requires
            column_spans@.len() == columns,
            row_spans@.len() == rows,
            grid_fits(column_spans@, row_spans@, width as int, height as int),
            columns * rows <= usize::MAX,
        ensures
            r is Err <==> rgb_input_error(pixels@.len() as int, width, height, columns, rows) is Some,
            r matches Err(e) ==> rgb_input_error(pixels@.len() as int, width, height, columns, rows)
                == Some(e) && *final(self) == *old(self),
            final(self).spec_cell_width() == old(self).spec_cell_width(),
            final(self).spec_cell_height() == old(self).spec_cell_height(),
            r is Ok ==> {
                let cells = grid_cells(
                    column_spans@,
                    row_spans@,
                    |xs: AxisSpan, ys: AxisSpan| shade_rgb_glyph(pixels@, width as int, xs, ys),
                );
                &&& final(self).spec_output() == frame(
                    rgb_frame_row(cells, columns as int),
                    rows as int,
                )
                &&& final(self).spec_stats() == blocks_stats(
                    columns * rows,
                    1,
                    rows_total(rgb_frame_changes(cells, columns as int), rows as int),
                    final(self).spec_output().len() as int,
                )
                &&& rows >= 1 ==> output_lines(decode_utf8(final(self).spec_output())).len() == rows
            },
    {
        proof {
            use_type_invariant(&*self);
        }
        validate_rgb_input(pixels, width, height, columns, rows)?;
        let sampled_cells = sample_shade_cells_rgb(pixels, width, height, column_spans, row_spans);
        let ghost expected = grid_cells(
            column_spans@,
            row_spans@,
            |xs: AxisSpan, ys: AxisSpan| shade_rgb_glyph(pixels@, width as int, xs, ys),
        );
        let cell_count = sampled_cells.len();
        let mut glyphs: Vec<(char, (u8, u8, u8))> = Vec::with_capacity(cell_count);
        let mut i: usize = 0;
        while i < cell_count
            invariant
                0 <= i <= cell_count,
                cell_count == sampled_cells@.len(),
                cell_count == columns * rows,
                columns == column_spans@.len(),
                rows == row_spans@.len(),
                is_gray_lut(self.gray_lut@),
                glyphs@.len() == i,
                expected == grid_cells(
                    column_spans@,
                    row_spans@,
                    |xs: AxisSpan, ys: AxisSpan| shade_rgb_glyph(pixels@, width as int, xs, ys),
                ),
                forall|k: int|
                    0 <= k < cell_count ==> (#[trigger] sampled_cells@[k]).avg_luma == shade_rgb_cell(
                        pixels@,
                        width as int,
                        cell_column(column_spans@, k),
                        cell_row(column_spans@, row_spans@, k),
                    ).0 && sampled_cells@[k].avg_rgb@ == shade_rgb_cell(
                        pixels@,
                        width as int,
                        cell_column(column_spans@, k),
                        cell_row(column_spans@, row_spans@, k),
                    ).1,
                forall|k: int| 0 <= k < i ==> #[trigger] glyphs@[k] == expected[k],
            decreases cell_count - i,
        {
            let cell = sampled_cells[i];
            let glyph = shade_char(cell.avg_luma);
            proof {
                char_u32_cast(glyph, glyph as u32);
            }
            glyphs.push((glyph, (cell.avg_rgb[0], cell.avg_rgb[1], cell.avg_rgb[2])));
            i += 1;
        }
        assert(glyphs@ =~= expected);
        let mut output: Vec<u8> = Vec::new();
        let sgr_change_count = append_rgb_frame(&mut output, &glyphs, columns, rows);
        assert(output@ =~= frame(rgb_frame_row(expected, columns as int), rows as int));
        proof {
            lemma_rgb_frame_valid(expected, columns as int, rows as int);
            lemma_shade_rgb_cells_no_newline(pixels@, width as int, column_spans@, row_spans@);
            if rows >= 1 {
                lemma_rgb_frame_lines(expected, columns as int, rows as int);
            }
        }
        let cells = saturating_mul_usize(columns, rows);
        let sample_count = saturating_u32(saturating_mul_usize(cells, 1));
        let lookup_count = saturating_u32(cells);
        let output_bytes = saturating_u32(output.len());
        self.last_output = output;
        self.last_stats = UnicodeBlocksRenderStats {
            sgr_change_count,
            cache_hits: 0,
            cache_misses: 0,
            sample_count,
            lookup_count,
            output_bytes,
        };
        Ok(())
    }
    /// Draws an RGB24 frame as upper half blocks: each cell in the mean
    /// colour of its upper half as foreground over the mean colour of its
    /// lower half as background, the halves split at each row span's
    /// `mid_start`. A frame of one or more rows is text of exactly that many
    /// lines. On error nothing changes.
    pub fn render_half_blocks_rgb(
        &mut self,
        pixels: &[u8],
        width: usize,
        height: usize,
        columns: usize,
        rows: usize,
        column_spans: &[AxisSpan],
        row_spans: &[AxisSpan],
    ) -> (r: Result<(), RenderError>)
        requires
            column_spans@.len() == columns,
            row_spans@.len() == rows,
            grid_fits(column_spans@, row_spans@, width as int, height as int),
            columns * rows <= usize::MAX,
        ensures
            r is Err <==> rgb_input_error(pixels@.len() as int, width, height, columns, rows) is Some,
            r matches Err(e) ==> rgb_input_error(pixels@.len() as int, width, height, columns, rows)
                == Some(e) && *final(self) == *old(self),
            final(self).spec_cell_width() == old(self).spec_cell_width(),
            final(self).spec_cell_height() == old(self).spec_cell_height(),
            r is Ok ==> {
                let cells = grid_cells(
                    column_spans@,
                    row_spans@,
                    |xs: AxisSpan, ys: AxisSpan| half_block_colours(pixels@, width as int, xs, ys),
                );
                &&& final(self).spec_output() == frame(
                    half_block_frame_row(cells, columns as int),
                    rows as int,
                )
                &&& final(self).spec_stats() == blocks_stats(
                    columns * rows,
                    2,
                    rows_total(half_block_frame_changes(cells, columns as int), rows as int),
                    final(self).spec_output().len() as int,
                )
                &&& rows >= 1 ==> output_lines(decode_utf8(final(self).spec_output())).len() == rows
            },
    {
        proof {
            use_type_invariant(&*self);
        }
        validate_rgb_input(pixels, width, height, columns, rows)?;
        let cells_sampled = sample_half_block_cells_rgb(pixels, width, height, column_spans, row_spans);
        let ghost expected = grid_cells(
            column_spans@,
            row_spans@,
            |xs: AxisSpan, ys: AxisSpan| half_block_colours(pixels@, width as int, xs, ys),
        );
        assert(cells_sampled@ =~= expected);
        let mut output: Vec<u8> = Vec::new();
        let sgr_change_count = append_half_block_frame(&mut output, &cells_sampled, columns, rows);
        assert(output@ =~= frame(half_block_frame_row(expected, columns as int), rows as int));
        proof {
            lemma_half_block_frame_valid(expected, columns as int, rows as int);
            if rows >= 1 {
                lemma_half_block_frame_lines(expected, columns as int, rows as int);
            }
        }
        let cells = saturating_mul_usize(columns, rows);
        let sample_count = saturating_u32(saturating_mul_usize(cells, 2));
        let lookup_count = saturating_u32(cells);
        let output_bytes = saturating_u32(output.len());
        self.last_output = output;
        self.last_stats = UnicodeBlocksRenderStats {
            sgr_change_count,
            cache_hits: 0,
            cache_misses: 0,
            sample_count,
            lookup_count,
            output_bytes,
        };
        Ok(())
    }
}

} // verus!
