//! The rendering algorithms a player can cycle through, and the splitting of
//! rendered text into rows.

use vstd::prelude::*;
use vstd::utf8::*;
use crate::ansi::{
    frame, frame_prefix, glyphs_without_newline, grid_row, half_block_frame_row, half_block_row,
    lemma_ascii_valid, lemma_half_block_row_no_newline, lemma_half_block_row_valid, lemma_palette_row_no_newline,
    lemma_palette_row_valid, lemma_rgb_row_no_newline, lemma_rgb_row_valid, palette_frame_row, palette_row,
    rgb_frame_row, rgb_row,
};
use crate::palette::reset_sgr;
use crate::text::{
    chars_of, has_no_newline, has_no_newline_byte, lemma_decode_no_newline, lemma_decode_utf8_concat,
    string_from_chars,
};

verus! {

/// A way of turning frames into coloured text.
#[derive(Clone, Copy, Debug, PartialEq, Eq)]
pub enum RenderAlgorithm {
    /// Samples and matches glyphs using only the pixels inside each output
    /// cell, against glyphs of the system monospace font.
    LocalShape,
    /// Samples a band outside each cell for context, and matches against an
    /// embedded bitmap font.
    ContextShape,
    /// Like `ContextShape`, but takes RGB24 frames and draws each cell in
    /// truecolor.
    ContextShapeColor,
    /// Takes RGB24 frames and draws each cell as an upper half block, the
    /// upper half's colour over the lower half's.
    HalfBlock,
    /// Draws each cell of a grey frame as a 2x3 sextant mosaic in palette grey.
    Sextant,
    /// Draws each cell of an RGB24 frame as a 2x3 sextant mosaic in truecolor.
    SextantRgb,
    /// Draws each cell of a grey frame as a shade block in palette grey.
    Shade,
    /// Draws each cell of an RGB24 frame as a shade block in truecolor.
    ShadeRgb,
}

/// The place of an algorithm in the cycle Local, Context, Color, HalfBlk,
/// Sextant, SextRGB, Shade, ShdRGB.
pub open spec fn algorithm_position(a: RenderAlgorithm) -> int {
    match a {
        RenderAlgorithm::LocalShape => 0,
        RenderAlgorithm::ContextShape => 1,
        RenderAlgorithm::ContextShapeColor => 2,
        RenderAlgorithm::HalfBlock => 3,
        RenderAlgorithm::Sextant => 4,
        RenderAlgorithm::SextantRgb => 5,
        RenderAlgorithm::Shade => 6,
        RenderAlgorithm::ShadeRgb => 7,
    }
}

/// The algorithm at place `i` (0..8) of the cycle.
pub open spec fn algorithm_at(i: int) -> RenderAlgorithm {
    if i == 0 {
        RenderAlgorithm::LocalShape
    } else if i == 1 {
        RenderAlgorithm::ContextShape
    } else if i == 2 {
        RenderAlgorithm::ContextShapeColor
    } else if i == 3 {
        RenderAlgorithm::HalfBlock
    } else if i == 4 {
        RenderAlgorithm::Sextant
    } else if i == 5 {
        RenderAlgorithm::SextantRgb
    } else if i == 6 {
        RenderAlgorithm::Shade
    } else {
        RenderAlgorithm::ShadeRgb
    }
}

/// The algorithm that follows `a` in the cycle: the next place, and after
/// the last the first again.
pub open spec fn next_algorithm(a: RenderAlgorithm) -> RenderAlgorithm {
    algorithm_at((algorithm_position(a) + 1) % 8)
}

/// `a` after `k` steps of the cycle.
pub open spec fn advance_algorithm(a: RenderAlgorithm, k: nat) -> RenderAlgorithm
    decreases k,
{
    if k == 0 {
        a
    } else {
        next_algorithm(advance_algorithm(a, (k - 1) as nat))
    }
}

impl RenderAlgorithm {
    /// A stable machine-readable name.
    pub fn id(self) -> (id: &'static str)
        ensures
            id@ == (match self {
                RenderAlgorithm::LocalShape => "local_shape"@,
                RenderAlgorithm::ContextShape => "context_shape"@,
                RenderAlgorithm::ContextShapeColor => "context_shape_color"@,
                RenderAlgorithm::HalfBlock => "half_block"@,
                RenderAlgorithm::Sextant => "sextant"@,
                RenderAlgorithm::SextantRgb => "sextant_rgb"@,
                RenderAlgorithm::Shade => "shade"@,
                RenderAlgorithm::ShadeRgb => "shade_rgb"@,
            }),
    {
        match self {
            RenderAlgorithm::LocalShape => "local_shape",
            RenderAlgorithm::ContextShape => "context_shape",
            RenderAlgorithm::ContextShapeColor => "context_shape_color",
            RenderAlgorithm::HalfBlock => "half_block",
            RenderAlgorithm::Sextant => "sextant",
            RenderAlgorithm::SextantRgb => "sextant_rgb",
            RenderAlgorithm::Shade => "shade",
            RenderAlgorithm::ShadeRgb => "shade_rgb",
        }
    }

    /// A short name for status lines.
    pub fn label(self) -> (label: &'static str)
        ensures
            label@ == (match self {
                RenderAlgorithm::LocalShape => "Local"@,
                RenderAlgorithm::ContextShape => "Context"@,
                RenderAlgorithm::ContextShapeColor => "Color"@,
                RenderAlgorithm::HalfBlock => "HalfBlk"@,
                RenderAlgorithm::Sextant => "Sextant"@,
                RenderAlgorithm::SextantRgb => "SextRGB"@,
                RenderAlgorithm::Shade => "Shade"@,
                RenderAlgorithm::ShadeRgb => "ShdRGB"@,
            }),
    {
        match self {
            RenderAlgorithm::LocalShape => "Local",
            RenderAlgorithm::ContextShape => "Context",
            RenderAlgorithm::ContextShapeColor => "Color",
            RenderAlgorithm::HalfBlock => "HalfBlk",
            RenderAlgorithm::Sextant => "Sextant",
            RenderAlgorithm::SextantRgb => "SextRGB",
            RenderAlgorithm::Shade => "Shade",
            RenderAlgorithm::ShadeRgb => "ShdRGB",
        }
    }

    /// The next algorithm in the cycle.
    pub fn next(self) -> (next: Self)
        ensures
            next == next_algorithm(self),
    {
        match self {
            RenderAlgorithm::LocalShape => RenderAlgorithm::ContextShape,
            RenderAlgorithm::ContextShape => RenderAlgorithm::ContextShapeColor,
            RenderAlgorithm::ContextShapeColor => RenderAlgorithm::HalfBlock,
            RenderAlgorithm::HalfBlock => RenderAlgorithm::Sextant,
            RenderAlgorithm::Sextant => RenderAlgorithm::SextantRgb,
            RenderAlgorithm::SextantRgb => RenderAlgorithm::Shade,
            RenderAlgorithm::Shade => RenderAlgorithm::ShadeRgb,
            RenderAlgorithm::ShadeRgb => RenderAlgorithm::LocalShape,
        }
    }

    /// Whether the algorithm takes RGB24 frames rather than grey ones.
    pub fn needs_rgb_frames(self) -> (rgb: bool)
        ensures
            rgb <==> (self == RenderAlgorithm::ContextShapeColor || self == RenderAlgorithm::HalfBlock
                || self == RenderAlgorithm::SextantRgb || self == RenderAlgorithm::ShadeRgb),
    {
        match self {
            RenderAlgorithm::ContextShapeColor => true,
            RenderAlgorithm::HalfBlock => true,
            RenderAlgorithm::SextantRgb => true,
            RenderAlgorithm::ShadeRgb => true,
            _ => false,
        }
    }
}

proof fn lemma_advance_position(a: RenderAlgorithm, k: nat)
    ensures
        algorithm_position(advance_algorithm(a, k)) == (algorithm_position(a) + k) % 8,
    decreases k,
{
    if k > 0 {
        lemma_advance_position(a, (k - 1) as nat);
        let p = algorithm_position(a);
        assert(((p + (k - 1)) % 8 + 1) % 8 == (p + k) % 8) by (nonlinear_arith)
            requires
                0 <= p < 8,
                k >= 1,
        ;
    }
}

/// Cycling through the eight algorithms returns to the start after eight
/// steps and to none of them earlier, so every algorithm is visited.
pub proof fn lemma_algorithm_cycle(a: RenderAlgorithm, k: nat)
    ensures
        advance_algorithm(a, 8) == a,
        0 < k < 8 ==> advance_algorithm(a, k) != a,
        advance_algorithm(RenderAlgorithm::LocalShape, k) == algorithm_at((k % 8) as int),
{
    lemma_advance_position(a, 8);
    lemma_advance_position(a, k);
    lemma_advance_position(RenderAlgorithm::LocalShape, k);
    let p = algorithm_position(a);
    assert((p + 8) % 8 == p) by (nonlinear_arith)
        requires
            0 <= p < 8,
    ;
    if 0 < k < 8 {
        assert((p + k) % 8 != p) by (nonlinear_arith)
            requires
                0 <= p < 8,
                0 < k < 8,
        ;
    }
    let b = advance_algorithm(RenderAlgorithm::LocalShape, k);
    assert(b == algorithm_at(algorithm_position(b)));
}

/// The pieces of `s` between newlines, as `str::split('\n')` gives them:
/// one more piece than there are newlines.
pub open spec fn split_newlines(s: Seq<char>) -> Seq<Seq<char>>
    decreases s.len(),
{
    if s.len() == 0 {
        seq![Seq::<char>::empty()]
    } else {
        let parts = split_newlines(s.drop_last());
        if s.last() == '\n' {
            parts.push(Seq::<char>::empty())
        } else {
            parts.update(parts.len() - 1, parts.last().push(s.last()))
        }
    }
}

/// The rows of rendered text: none for empty text, otherwise the pieces
/// between newlines.
pub open spec fn output_lines(s: Seq<char>) -> Seq<Seq<char>> {
    if s.len() == 0 {
        Seq::empty()
    } else {
        split_newlines(s)
    }
}

proof fn lemma_split_newlines_nonempty(s: Seq<char>)
    ensures
        split_newlines(s).len() >= 1,
    decreases s.len(),
{
    if s.len() > 0 {
        lemma_split_newlines_nonempty(s.drop_last());
    }
}

/// Splitting text extended by characters without a newline extends the
/// last piece by those characters.
proof fn lemma_split_append_plain(s: Seq<char>, t: Seq<char>)
    requires
        has_no_newline(t),
    ensures
        split_newlines(s + t).len() == split_newlines(s).len(),
        split_newlines(s + t) == split_newlines(s).update(
            split_newlines(s).len() - 1,
            split_newlines(s).last() + t,
        ),
    decreases t.len(),
{
    lemma_split_newlines_nonempty(s);
    let p = split_newlines(s);
    if t.len() == 0 {
        assert(s + t =~= s);
        assert(p.last() + t =~= p.last());
        assert(p.update(p.len() - 1, p.last()) =~= p);
    } else {
        let t0 = t.drop_last();
        assert(has_no_newline(t0)) by {
            assert forall|i: int| 0 <= i < t0.len() implies #[trigger] t0[i] != '\n' by {
                assert(t0[i] == t[i]);
            }
        }
        lemma_split_append_plain(s, t0);
        let x = s + t;
        assert(x.drop_last() =~= s + t0);
        assert(x.last() == t[t.len() - 1]);
        let q = split_newlines(s + t0);
        assert(q.last() == p.last() + t0);
        assert(q.last().push(t.last()) =~= p.last() + t);
        assert(split_newlines(x) =~= p.update(p.len() - 1, p.last() + t));
    }
}

/// Splitting text ended by a newline adds an empty last piece.
proof fn lemma_split_push_newline(s: Seq<char>)
    ensures
        split_newlines(s.push('\n')) == split_newlines(s).push(Seq::<char>::empty()),
{
    assert(s.push('\n').drop_last() =~= s);
}

/// The line feed byte decodes to the line feed character.
proof fn lemma_decode_line_feed()
    ensures
        valid_utf8(seq![0x0au8]),
        decode_utf8(seq![0x0au8]) == seq!['\n'],
{
    let b = seq![0x0au8];
    lemma_ascii_valid(b);
    assert((0x0au8 & 0x7f) as u32 == 10u32) by (bit_vector);
    assert(pop_first_scalar(b) =~= Seq::<u8>::empty());
    assert(decode_first_scalar(b) == 10u32);
    vstd::utf8::char_u32_cast('\n', 10u32);
    assert(decode_utf8(Seq::<u8>::empty()) =~= Seq::<char>::empty());
    assert(decode_utf8(b) == seq![decode_first_scalar(b) as char] + decode_utf8(pop_first_scalar(b)));
    assert(decode_utf8(b) =~= seq!['\n']);
}

/// What the first `k` rows of a frame split into at newlines: one piece per
/// row, holding the row and its reset, and an empty piece after a newline.
#[verifier::spinoff_prover]
#[verifier::rlimit(40)]
proof fn lemma_frame_prefix_lines(row: spec_fn(int) -> Seq<u8>, total: int, k: int)
    requires
        1 <= total,
        0 <= k <= total,
        forall|r: int|
            0 <= r < total ==> valid_utf8(#[trigger] row(r)) && has_no_newline_byte(row(r)),
    ensures
        valid_utf8(frame_prefix(row, total, k)),
        ({
            let parts = split_newlines(decode_utf8(frame_prefix(row, total, k)));
            &&& parts.len() == (if k < total { k + 1 } else { k })
            &&& forall|r: int| 0 <= r < k ==> #[trigger] parts[r] == decode_utf8(row(r) + reset_sgr())
            &&& k < total ==> parts[k] == Seq::<char>::empty()
        }),
    decreases k,
{
    if k == 0 {
        lemma_ascii_valid(Seq::<u8>::empty());
        assert(decode_utf8(Seq::<u8>::empty()) =~= Seq::<char>::empty());
    } else {
        lemma_frame_prefix_lines(row, total, k - 1);
        let before = frame_prefix(row, total, k - 1);
        let line = row(k - 1);
        let reset = reset_sgr();
        assert(valid_utf8(line) && has_no_newline_byte(line));
        lemma_ascii_valid(reset);
        lemma_decode_utf8_concat(line, reset);
        let lr = line + reset;
        assert forall|i: int| 0 <= i < lr.len() implies #[trigger] lr[i] != 0x0au8 by {
            if i < line.len() {
                assert(lr[i] == line[i]);
            } else {
                assert(lr[i] == reset[i - line.len()]);
            }
        }
        lemma_decode_no_newline(lr);
        lemma_decode_utf8_concat(before, lr);
        assert(before + lr =~= before + line + reset);
        let d = decode_utf8(before);
        let t = decode_utf8(lr);
        let parts = split_newlines(d);
        lemma_split_append_plain(d, t);
        let joined = split_newlines(d + t);
        assert(parts[k - 1] == Seq::<char>::empty());
        assert(parts[k - 1] + t =~= t);
        assert(joined == parts.update(k - 1, t));
        if k < total {
            lemma_decode_line_feed();
            let nl = seq![0x0au8];
            lemma_decode_utf8_concat(before + line + reset, nl);
            assert(frame_prefix(row, total, k) == before + line + reset + nl);
            assert(d + t + seq!['\n'] =~= (d + t).push('\n'));
            lemma_split_push_newline(d + t);
            let all = split_newlines(decode_utf8(frame_prefix(row, total, k)));
            assert(all == joined.push(Seq::<char>::empty()));
            assert forall|r: int| 0 <= r < k implies #[trigger] all[r] == decode_utf8(row(r) + reset_sgr()) by {
                assert(all[r] == joined[r]);
            }
        } else {
            assert(frame_prefix(row, total, k) =~= before + line + reset);
            let all = split_newlines(decode_utf8(frame_prefix(row, total, k)));
            assert(all == joined);
            assert forall|r: int| 0 <= r < k implies #[trigger] all[r] == decode_utf8(row(r) + reset_sgr()) by {
                assert(all[r] == joined[r]);
            }
        }
    }
}

/// A frame of `total >= 1` rows whose bytes hold no line feed is text of
/// exactly `total` lines: line `r` is row `r` followed by the reset escape.
pub proof fn lemma_frame_lines(row: spec_fn(int) -> Seq<u8>, total: int)
    requires
        1 <= total,
        forall|r: int|
            0 <= r < total ==> valid_utf8(#[trigger] row(r)) && has_no_newline_byte(row(r)),
    ensures
        valid_utf8(frame(row, total)),
        output_lines(decode_utf8(frame(row, total))).len() == total,
        forall|r: int|
            0 <= r < total ==> #[trigger] output_lines(decode_utf8(frame(row, total)))[r] == decode_utf8(
                row(r) + reset_sgr(),
            ),
{
    lemma_frame_prefix_lines(row, total, total);
    let text = decode_utf8(frame(row, total));
    if text.len() == 0 {
        let reset = reset_sgr();
        lemma_ascii_valid(reset);
        lemma_decode_utf8_concat(row(0), reset);
        assert(decode_utf8(reset).len() > 0);
        assert(split_newlines(text)[0] == decode_utf8(row(0)) + decode_utf8(reset));
        assert(false);
    }
}

/// A palette frame of `rows >= 1` rows of `columns` cells, no glyph being a
/// line feed, is text of exactly `rows` lines, one per grid row.
pub proof fn lemma_palette_frame_lines(
    cells: Seq<(char, u8)>,
    columns: int,
    rows: int,
    skip_blank: bool,
    init: Option<u8>,
)
    requires
        1 <= rows,
        0 <= columns,
        cells.len() == columns * rows,
        glyphs_without_newline(cells),
    ensures
        ({
            let lines = output_lines(decode_utf8(frame(palette_frame_row(cells, columns, skip_blank, init), rows)));
            &&& lines.len() == rows
            &&& forall|r: int|
                0 <= r < rows ==> #[trigger] lines[r] == decode_utf8(
                    palette_row(grid_row(cells, columns, r), skip_blank, init) + reset_sgr(),
                )
        }),
{
    let row = palette_frame_row(cells, columns, skip_blank, init);
    assert forall|r: int| 0 <= r < rows implies valid_utf8(#[trigger] row(r)) && has_no_newline_byte(row(r)) by {
        let g = grid_row(cells, columns, r);
        assert(r * columns + columns <= columns * rows) by (nonlinear_arith)
            requires
                r < rows,
                0 <= columns,
        ;
        assert(0 <= r * columns) by (nonlinear_arith)
            requires
                0 <= r,
                0 <= columns,
        ;
        assert(glyphs_without_newline(g)) by {
            assert forall|i: int| 0 <= i < g.len() implies (#[trigger] g[i]).0 != '\n' by {
                assert(g[i] == cells[r * columns + i]);
            }
        }
        lemma_palette_row_valid(g, skip_blank, init);
        lemma_palette_row_no_newline(g, skip_blank, init);
    }
    lemma_frame_lines(row, rows);
}

/// A truecolor frame of `rows >= 1` rows of `columns` cells, no glyph being
/// a line feed, is text of exactly `rows` lines, one per grid row.
pub proof fn lemma_rgb_frame_lines(cells: Seq<(char, (u8, u8, u8))>, columns: int, rows: int)
    requires
        1 <= rows,
        0 <= columns,
        cells.len() == columns * rows,
        glyphs_without_newline(cells),
    ensures
        ({
            let lines = output_lines(decode_utf8(frame(rgb_frame_row(cells, columns), rows)));
            &&& lines.len() == rows
            &&& forall|r: int|
                0 <= r < rows ==> #[trigger] lines[r] == decode_utf8(
                    rgb_row(grid_row(cells, columns, r)) + reset_sgr(),
                )
        }),
{
    let row = rgb_frame_row(cells, columns);
    assert forall|r: int| 0 <= r < rows implies valid_utf8(#[trigger] row(r)) && has_no_newline_byte(row(r)) by {
        let g = grid_row(cells, columns, r);
        assert(r * columns + columns <= columns * rows) by (nonlinear_arith)
            requires
                r < rows,
                0 <= columns,
        ;
        assert(0 <= r * columns) by (nonlinear_arith)
            requires
                0 <= r,
                0 <= columns,
        ;
        assert(glyphs_without_newline(g)) by {
            assert forall|i: int| 0 <= i < g.len() implies (#[trigger] g[i]).0 != '\n' by {
                assert(g[i] == cells[r * columns + i]);
            }
        }
        lemma_rgb_row_valid(g);
        lemma_rgb_row_no_newline(g);
    }
    lemma_frame_lines(row, rows);
}

/// A half-block frame of `rows >= 1` rows is text of exactly `rows` lines,
/// one per grid row.
pub proof fn lemma_half_block_frame_lines(cells: Seq<((u8, u8, u8), (u8, u8, u8))>, columns: int, rows: int)
    requires
        1 <= rows,
    ensures
        ({
            let lines = output_lines(decode_utf8(frame(half_block_frame_row(cells, columns), rows)));
            &&& lines.len() == rows
            &&& forall|r: int|
                0 <= r < rows ==> #[trigger] lines[r] == decode_utf8(
                    half_block_row(grid_row(cells, columns, r)) + reset_sgr(),
                )
        }),
{
    let row = half_block_frame_row(cells, columns);
    assert forall|r: int| 0 <= r < rows implies valid_utf8(#[trigger] row(r)) && has_no_newline_byte(row(r)) by {
        lemma_half_block_row_valid(grid_row(cells, columns, r));
        lemma_half_block_row_no_newline(grid_row(cells, columns, r));
    }
    lemma_frame_lines(row, rows);
}

/// Splits rendered text into its rows.
pub fn split_output_lines(output: &str) -> (lines: Vec<String>)
    ensures
        lines@.len() == output_lines(output@).len(),
        forall|i: int| 0 <= i < lines@.len() ==> (#[trigger] lines@[i])@ == output_lines(output@)[i],
{
    let chars = chars_of(output);
    if chars.len() == 0 {
        return Vec::new();
    }
    let mut lines: Vec<String> = Vec::new();
    let mut current: Vec<char> = Vec::new();
    let mut i: usize = 0;
    while i < chars.len()
        invariant
            0 <= i <= chars@.len(),
            chars@ == output@,
            ({
                let parts = split_newlines(chars@.subrange(0, i as int));
                &&& lines@.len() + 1 == parts.len()
                &&& forall|k: int| 0 <= k < lines@.len() ==> (#[trigger] lines@[k])@ == parts[k]
                &&& current@ == parts.last()
            }),
        decreases chars@.len() - i,
    {
        let ghost prefix = chars@.subrange(0, i as int);
        let ghost next = chars@.subrange(0, i + 1);
        assert(next.drop_last() =~= prefix);
        proof {
            lemma_split_newlines_nonempty(prefix);
        }
        let c = chars[i];
        if c == '\n' {
            let line = string_from_chars(current.as_slice());
            lines.push(line);
            current = Vec::new();
            assert(current@ =~= Seq::<char>::empty());
        } else {
            current.push(c);
        }
        i += 1;
    }
    let line = string_from_chars(current.as_slice());
    lines.push(line);
    assert(chars@.subrange(0, chars@.len() as int) =~= chars@);
    lines
}

} // verus!
