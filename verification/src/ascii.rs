//! The local-shape ASCII renderer's verified parts: the output grid, the
//! glyph lookup cache, grey ANSI row assembly, and the frame-rate window.

use vstd::prelude::*;
use vstd::utf8::*;
use std::collections::{HashMap, VecDeque};
use std::time::Instant;
use crate::ansi::{
    append_palette_frame, frame, palette_frame_changes, palette_frame_row, rows_total,
    saturate_u32, lemma_ascii_valid, lemma_palette_row_valid, palette_changes, palette_emits, palette_row,
    palette_state, push_reset, grid_row,
};
use crate::palette::{
    build_fg_sgr, build_gray_lut, is_fg_sgr_table, is_gray_lut, lemma_gray_lut_entry,
    nearest_gray_index, palette_fg_sgr, reset_sgr,
};
use crate::text::{push_char, string_from_chars, string_from_utf8_lossy};

verus! {

broadcast use vstd::std_specs::hash::group_hash_axioms;

/// The number of character columns and rows a frame is drawn into.
#[derive(Clone, Copy, Debug, PartialEq, Eq)]
pub struct AsciiGrid {
    pub columns: usize,
    pub rows: usize,
}

/// Most entries the glyph cache holds before it starts over.
pub const CACHE_LIMIT: usize = 16_384;

/// Remembers the glyph chosen for each quantised shape vector. When full,
/// it forgets everything before remembering the next entry.
pub struct GlyphCache {
    entries: HashMap<usize, char>,
}

impl GlyphCache {
    /// The remembered glyphs, by key.
    pub closed spec fn spec_entries(&self) -> Map<usize, char> {
        self.entries@
    }

    /// An empty cache with room reserved for `capacity` entries.
    pub fn with_capacity(capacity: usize) -> (cache: Self)
        ensures
            cache.spec_entries() == Map::<usize, char>::empty(),
    {
        GlyphCache { entries: HashMap::with_capacity(capacity) }
    }

    /// The glyph remembered for `key`, if any.
    pub fn get(&self, key: usize) -> (r: Option<char>)
        ensures
            match r {
                Some(ch) => self.spec_entries().contains_key(key) && self.spec_entries()[key] == ch,
                None => !self.spec_entries().contains_key(key),
            },
    {
        match self.entries.get(&key) {
            Some(ch) => Some(*ch),
            None => None,
        }
    }

    /// Remembers `ch` for `key`, first forgetting everything when the cache is full.
    pub fn remember(&mut self, key: usize, ch: char)
        ensures
            old(self).spec_entries().len() >= CACHE_LIMIT ==> final(self).spec_entries() == Map::<
                usize,
                char,
            >::empty().insert(key, ch),
            old(self).spec_entries().len() < CACHE_LIMIT ==> final(self).spec_entries() == old(
                self,
            ).spec_entries().insert(key, ch),
            old(self).spec_entries().len() <= CACHE_LIMIT ==> final(self).spec_entries().len()
                <= CACHE_LIMIT,
    {
        if self.entries.len() >= CACHE_LIMIT {
            self.entries.clear();
        }
        let ghost before = self.entries@;
        proof {
            if before.contains_key(key) {
                assert(before.insert(key, ch).dom() =~= before.dom());
            } else {
                assert(before.insert(key, ch).dom() =~= before.dom().insert(key));
            }
        }
        self.entries.insert(key, ch);
    }

    /// The number of remembered glyphs.
    pub fn len(&self) -> (n: usize)
        ensures
            n == self.spec_entries().len(),
    {
        self.entries.len()
    }
}

/// The last timestamps of rendered frames, for a frame rate over a sliding window.
#[derive(Clone, Debug)]
pub struct FpsAverager {
    timestamps: VecDeque<Instant>,
    max_samples: usize,
}

/// The last `n` elements of `s` (all of them when it is shorter).
pub open spec fn last_n<T>(s: Seq<T>, n: int) -> Seq<T> {
    if s.len() <= n {
        s
    } else {
        s.subrange(s.len() - n, s.len() as int)
    }
}

impl FpsAverager {
    /// The timestamps held, oldest first.
    pub closed spec fn spec_timestamps(&self) -> Seq<Instant> {
        self.timestamps@
    }

    /// The most timestamps held.
    pub closed spec fn spec_max_samples(&self) -> usize {
        self.max_samples
    }

    /// An empty window of `max_samples` timestamps, but never fewer than two.
    pub fn new(max_samples: usize) -> (averager: Self)
        ensures
            averager.spec_timestamps() == Seq::<Instant>::empty(),
            averager.spec_max_samples() == (if max_samples < 2 { 2 } else { max_samples }),
    {
        FpsAverager {
            timestamps: VecDeque::with_capacity(max_samples),
            max_samples: if max_samples < 2 {
                2
            } else {
                max_samples
            },
        }
    }

    /// Adds a timestamp, dropping the oldest ones beyond the window.
    pub fn push(&mut self, timestamp: Instant)
        ensures
            final(self).spec_max_samples() == old(self).spec_max_samples(),
            final(self).spec_timestamps() == last_n(
                old(self).spec_timestamps().push(timestamp),
                old(self).spec_max_samples() as int,
            ),
    {
        let ghost all = self.timestamps@.push(timestamp);
        self.timestamps.push_back(timestamp);
        while self.timestamps.len() > self.max_samples
            invariant
                self.max_samples == old(self).max_samples,
                all == old(self).timestamps@.push(timestamp),
                self.timestamps@.len() <= all.len(),
                all.len() > self.max_samples ==> self.timestamps@ == all.subrange(
                    all.len() - self.timestamps@.len(),
                    all.len() as int,
                ) && self.timestamps@.len() >= self.max_samples,
                all.len() <= self.max_samples ==> self.timestamps@ == all,
            decreases self.timestamps@.len(),
        {
            let ghost before = self.timestamps@;
            assert(all.len() > self.max_samples);
            let popped = self.timestamps.pop_front();
            assert(popped is Some);
            assert(self.timestamps@ == before.subrange(1, before.len() as int));
            assert(self.timestamps@ =~= all.subrange(all.len() - self.timestamps@.len(), all.len() as int));
        }
        assert(self.timestamps@ =~= last_n(all, self.max_samples as int));
    }

    /// The number of timestamps held.
    pub fn len(&self) -> (n: usize)
        ensures
            n == self.spec_timestamps().len(),
    {
        self.timestamps.len()
    }

    /// The oldest and newest timestamps held, when there are at least two.
    pub fn span(&self) -> (r: Option<(Instant, Instant)>)
        ensures
            r is Some <==> self.spec_timestamps().len() >= 2,
            r matches Some(p) ==> p.0 == self.spec_timestamps()[0] && p.1 == self.spec_timestamps().last(),
    {
        let n = self.timestamps.len();
        if n < 2 {
            return None;
        }
        Some((self.timestamps[0], self.timestamps[n - 1]))
    }
}

/// Cells `(glyph, luminance)` with each luminance replaced by its nearest palette grey.
pub open spec fn gray_palette_cells(cells: Seq<(char, u8)>) -> Seq<(char, u8)> {
    cells.map_values(|c: (char, u8)| (c.0, nearest_gray_index(c.1 as int) as u8))
}

/// The bytes of one ANSI row of `(glyph, luminance)` cells: a palette grey
/// escape wherever the grey changes, the glyphs, and a final reset.
pub open spec fn ansi_gray_row(cells: Seq<(char, u8)>) -> Seq<u8> {
    palette_row(gray_palette_cells(cells), false, None) + reset_sgr()
}

/// The grey escapes in one ANSI row.
pub open spec fn ansi_gray_row_changes(cells: Seq<(char, u8)>) -> int {
    palette_changes(gray_palette_cells(cells), false, None)
}

/// The escapes over the first `k` rows of a grid.
pub open spec fn ansi_gray_changes(cells: Seq<(char, u8)>, columns: int, k: int) -> int
    decreases k,
{
    if k <= 0 {
        0
    } else {
        ansi_gray_changes(cells, columns, k - 1) + ansi_gray_row_changes(grid_row(cells, columns, k - 1))
    }
}

/// The grey part of the xterm palette: the nearest palette entry of each
/// grey level, and the escape selecting each entry.
pub struct AnsiGrayPalette {
    lut: [u8; 256],
    fg_sgr: Vec<Vec<u8>>,
}

impl AnsiGrayPalette {
    #[verifier::type_invariant]
    spec fn well_formed(self) -> bool {
        is_gray_lut(self.lut@) && is_fg_sgr_table(self.fg_sgr@)
    }

    /// The palette entry each grey level maps to, by grey level.
    pub closed spec fn spec_gray_entries(&self) -> Seq<u8> {
        self.lut@
    }

    /// The escape selecting each palette entry, by entry.
    pub closed spec fn spec_escapes(&self) -> Seq<Seq<u8>> {
        self.fg_sgr@.map_values(|code: Vec<u8>| code@)
    }

    /// Builds the tables: for each grey level its nearest palette entry, and
    /// for each palette entry the escape selecting it as foreground.
    pub fn new() -> (palette: Self)
        ensures
            palette.spec_gray_entries().len() == 256,
            forall|g: int|
                0 <= g < 256 ==> #[trigger] palette.spec_gray_entries()[g] as int == nearest_gray_index(g),
            palette.spec_escapes().len() == 256,
            forall|i: int| 0 <= i < 256 ==> #[trigger] palette.spec_escapes()[i] == palette_fg_sgr(i as nat),
    {
        let lut = build_gray_lut();
        let fg_sgr = build_fg_sgr();
        assert forall|g: int| 0 <= g < 256 implies #[trigger] lut@[g] as int == nearest_gray_index(g) by {
            lemma_gray_lut_entry(lut@, g);
        }
        AnsiGrayPalette { lut, fg_sgr }
    }

    /// The palette entry nearest to grey `value`.
    pub fn nearest_ansi_gray(&self, value: u8) -> (index: u8)
        ensures
            index as int == nearest_gray_index(value as int),
    {
        proof {
            use_type_invariant(self);
            lemma_gray_lut_entry(self.lut@, value as int);
        }
        self.lut[value as usize]
    }

    /// Appends a grid of `(glyph, luminance)` cells as one frame, each
    /// luminance drawn as its nearest palette grey (see `append_palette_frame`).
    /// Returns the number of colour escapes, saturating.
    pub fn append_frame(
        &self,
        output: &mut Vec<u8>,
        cells: &Vec<(char, u8)>,
        columns: usize,
        rows: usize,
        skip_blank: bool,
        init: Option<u8>,
    ) -> (changes: u32)
        requires
            cells@.len() == columns * rows,
        ensures
            final(output)@ == old(output)@ + frame(
                palette_frame_row(gray_palette_cells(cells@), columns as int, skip_blank, init),
                rows as int,
            ),
            changes == saturate_u32(
                rows_total(palette_frame_changes(gray_palette_cells(cells@), columns as int, skip_blank, init), rows as int),
            ),
    {
        proof {
            use_type_invariant(self);
        }
        let mut mapped: Vec<(char, u8)> = Vec::with_capacity(cells.len());
        let mut i: usize = 0;
        while i < cells.len()
            invariant
                0 <= i <= cells@.len(),
                is_gray_lut(self.lut@),
                mapped@ == gray_palette_cells(cells@).subrange(0, i as int),
            decreases cells@.len() - i,
        {
            let cell = cells[i];
            proof {
                lemma_gray_lut_entry(self.lut@, cell.1 as int);
            }
            mapped.push((cell.0, self.lut[cell.1 as usize]));
            assert(mapped@ =~= gray_palette_cells(cells@).subrange(0, i + 1));
            i += 1;
        }
        assert(mapped@ =~= gray_palette_cells(cells@));
        append_palette_frame(output, &mapped, columns, rows, &self.fg_sgr, skip_blank, init)
    }

    /// Assembles a grid of `(glyph, luminance)` cells into one string per
    /// row: each glyph preceded by a palette grey escape wherever the grey
    /// differs from the previous cell's in the row, and each row ended by a
    /// reset. Returns the rows and the number of escapes.
    pub fn assemble_rows(&self, cells: &Vec<(char, u8)>, grid: AsciiGrid) -> (r: (Vec<String>, usize))
        requires
            cells@.len() == grid.columns * grid.rows,
        ensures
            r.0@.len() == grid.rows,
            forall|i: int|
                0 <= i < grid.rows ==> (#[trigger] r.0@[i])@ == decode_utf8(
                    ansi_gray_row(grid_row(cells@, grid.columns as int, i)),
                ),
            r.1 as int == ansi_gray_changes(cells@, grid.columns as int, grid.rows as int),
    {
        proof {
            use_type_invariant(self);
        }
        let columns = grid.columns;
        let rows = grid.rows;
        let cell_count = cells.len();
        let mut lines: Vec<String> = Vec::with_capacity(rows);
        let mut changes: usize = 0;
        let mut row: usize = 0;
        while row < rows
            invariant
                0 <= row <= rows,
                columns == grid.columns,
                rows == grid.rows,
                cell_count == cells@.len(),
                cells@.len() == columns * rows,
                is_gray_lut(self.lut@),
                is_fg_sgr_table(self.fg_sgr@),
                lines@.len() == row,
                forall|i: int|
                    0 <= i < row ==> (#[trigger] lines@[i])@ == decode_utf8(
                        ansi_gray_row(grid_row(cells@, columns as int, i)),
                    ),
                changes as int == ansi_gray_changes(cells@, columns as int, row as int),
                changes <= row * columns,
            decreases rows - row,
        {
            assert((row + 1) * columns <= rows * columns) by (nonlinear_arith)
                requires
                    row < rows,
            ;
            assert(row * columns + columns == (row + 1) * columns) by (nonlinear_arith);
            let base = row * columns;
            let ghost row_cells = gray_palette_cells(grid_row(cells@, columns as int, row as int));
            let mut bytes: Vec<u8> = Vec::new();
            let mut previous: Option<u8> = None;
            let mut row_changes: usize = 0;
            let mut column: usize = 0;
            while column < columns
                invariant
                    0 <= column <= columns,
                    base == row * columns,
                    base + columns <= cells@.len(),
                    cell_count == cells@.len(),
                    is_gray_lut(self.lut@),
                    is_fg_sgr_table(self.fg_sgr@),
                    row_cells == gray_palette_cells(grid_row(cells@, columns as int, row as int)),
                    bytes@ == palette_row(row_cells.subrange(0, column as int), false, None),
                    previous == palette_state(row_cells.subrange(0, column as int), false, None),
                    row_changes as int == palette_changes(row_cells.subrange(0, column as int), false, None),
                    row_changes <= column,
                decreases columns - column,
            {
                let cell = cells[base + column];
                proof {
                    lemma_gray_lut_entry(self.lut@, cell.1 as int);
                }
                let fg = self.lut[cell.1 as usize];
                let ghost prefix = row_cells.subrange(0, column as int);
                let ghost next = row_cells.subrange(0, column + 1);
                assert(next.drop_last() =~= prefix);
                assert(next.last() == (cell.0, fg));
                let emits = match previous {
                    Some(p) => p != fg,
                    None => true,
                };
                if emits {
                    let code = &self.fg_sgr[fg as usize];
                    let mut i: usize = 0;
                    let ghost before_code = bytes@;
                    while i < code.len()
                        invariant
                            0 <= i <= code@.len(),
                            bytes@ == before_code + code@.subrange(0, i as int),
                        decreases code@.len() - i,
                    {
                        bytes.push(code[i]);
                        assert(code@.subrange(0, i + 1) =~= code@.subrange(0, i as int).push(code@[i as int]));
                        i += 1;
                    }
                    assert(code@.subrange(0, code@.len() as int) =~= code@);
                    previous = Some(fg);
                    row_changes += 1;
                }
                push_char(&mut bytes, cell.0);
                assert(bytes@ =~= palette_row(next, false, None));
                column += 1;
            }
            assert(row_cells.subrange(0, columns as int) =~= row_cells);
            proof {
                lemma_palette_row_valid(row_cells, false, None);
                lemma_ascii_valid(reset_sgr());
            }
            push_reset(&mut bytes);
            proof {
                vstd::utf8::valid_utf8_concat(palette_row(row_cells, false, None), reset_sgr());
            }
            assert(bytes@ == ansi_gray_row(grid_row(cells@, columns as int, row as int)));
            let line = string_from_utf8_lossy(bytes.as_slice());
            lines.push(line);
            assert(row * columns + columns <= rows * columns);
            changes = changes + row_changes;
            row += 1;
        }
        (lines, changes)
    }
}

/// Groups a grid of glyphs into one string per row.
pub fn assemble_plain_rows(glyphs: &Vec<char>, grid: AsciiGrid) -> (lines: Vec<String>)
    requires
        glyphs@.len() == grid.columns * grid.rows,
    ensures
        lines@.len() == grid.rows,
        forall|i: int| 0 <= i < grid.rows ==> (#[trigger] lines@[i])@ == grid_row(glyphs@, grid.columns as int, i),
{
    let columns = grid.columns;
    let rows = grid.rows;
    let count = glyphs.len();
    let mut lines: Vec<String> = Vec::with_capacity(rows);
    let mut row: usize = 0;
    while row < rows
        invariant
            0 <= row <= rows,
            columns == grid.columns,
            rows == grid.rows,
            count == glyphs@.len(),
            glyphs@.len() == columns * rows,
            lines@.len() == row,
            forall|i: int| 0 <= i < row ==> (#[trigger] lines@[i])@ == grid_row(glyphs@, columns as int, i),
        decreases rows - row,
    {
        assert((row + 1) * columns <= rows * columns) by (nonlinear_arith)
            requires
                row < rows,
        ;
        assert(row * columns + columns == (row + 1) * columns) by (nonlinear_arith);
        let base = row * columns;
        let mut line: Vec<char> = Vec::with_capacity(columns);
        let mut column: usize = 0;
        while column < columns
            invariant
                0 <= column <= columns,
                base == row * columns,
                base + columns <= glyphs@.len(),
                count == glyphs@.len(),
                line@ == glyphs@.subrange(base as int, base + column),
            decreases columns - column,
        {
            line.push(glyphs[base + column]);
            assert(line@ =~= glyphs@.subrange(base as int, base + column + 1));
            column += 1;
        }
        lines.push(string_from_chars(line.as_slice()));
        row += 1;
    }
    lines
}

/// The UTF-8 byte lengths of the first `k` rows, added up.
pub open spec fn rows_utf8_len(rows: Seq<Seq<char>>, k: int) -> int
    decreases k,
{
    if k <= 0 {
        0
    } else {
        rows_utf8_len(rows, k - 1) + encode_utf8(rows[k - 1]).len()
    }
}

/// The byte size of rows joined by newlines.
pub open spec fn plain_text_len(rows: Seq<Seq<char>>) -> int {
    if rows.len() == 0 {
        0
    } else {
        rows_utf8_len(rows, rows.len() as int) + rows.len() - 1
    }
}

/// The views of a sequence of strings.
pub open spec fn string_views(rows: Seq<String>) -> Seq<Seq<char>> {
    rows.map_values(|s: String| s@)
}

/// The byte size of the rows as one text, joined by newlines.
pub fn plain_text_output_bytes(rows: &Vec<String>) -> (n: usize)
    requires
        plain_text_len(string_views(rows@)) <= usize::MAX,
    ensures
        n as int == plain_text_len(string_views(rows@)),
{
    let ghost views = string_views(rows@);
    if rows.len() == 0 {
        return 0;
    }
    let mut total: usize = 0;
    let mut i: usize = 0;
    while i < rows.len()
        invariant
            0 <= i <= rows@.len(),
            rows@.len() > 0,
            views == string_views(rows@),
            plain_text_len(views) <= usize::MAX,
            total as int == rows_utf8_len(views, i as int),
        decreases rows@.len() - i,
    {
        proof {
            lemma_rows_utf8_len_monotone(views, i + 1, rows@.len() as int);
        }
        let len = rows[i].as_str().len();
        assert(views[i as int] == rows@[i as int]@);
        total = total + len;
        i += 1;
    }
    total + (rows.len() - 1)
}

proof fn lemma_rows_utf8_len_monotone(rows: Seq<Seq<char>>, j: int, k: int)
    requires
        0 <= j <= k,
    ensures
        rows_utf8_len(rows, j) <= rows_utf8_len(rows, k),
    decreases k - j,
{
    if j < k {
        lemma_rows_utf8_len_monotone(rows, j, k - 1);
    }
}

/// The printable ASCII characters, space through tilde.
pub fn printable_ascii() -> (chars: Vec<char>)
    ensures
        chars@.len() == 95,
        forall|i: int| 0 <= i < 95 ==> (#[trigger] chars@[i]) as u32 == 0x20 + i,
{
    let mut chars: Vec<char> = Vec::with_capacity(95);
    let mut code: u8 = 0x20;
    while code <= 0x7e
        invariant
            0x20 <= code <= 0x7f,
            chars@.len() == code - 0x20,
            forall|i: int| 0 <= i < chars@.len() ==> (#[trigger] chars@[i]) as u32 == 0x20 + i,
        decreases 0x7f - code,
    {
        chars.push(code as char);
        code += 1;
    }
    chars
}

/// What the glyph cache reads back after `remember(key, ch)`: `ch` for
/// `key`, and for every other key either what it held before or, when the
/// cache was full, nothing.
pub proof fn lemma_cache_read_after_write(before: Map<usize, char>, after: Map<usize, char>, key: usize, ch: char, other: usize)
    requires
        before.len() >= CACHE_LIMIT ==> after == Map::<usize, char>::empty().insert(key, ch),
        before.len() < CACHE_LIMIT ==> after == before.insert(key, ch),
        other != key,
    ensures
        after.contains_key(key) && after[key] == ch,
        before.len() < CACHE_LIMIT ==> (after.contains_key(other) == before.contains_key(other) && (
        before.contains_key(other) ==> after[other] == before[other])),
        before.len() >= CACHE_LIMIT ==> !after.contains_key(other),
{
}

/// A window of `n` timestamps never grows past `n` after a push, and keeps
/// the newest timestamp last.
pub proof fn lemma_window_bounded<T>(s: Seq<T>, t: T, n: int)
    requires
        n >= 1,
    ensures
        last_n(s.push(t), n).len() <= n,
        last_n(s.push(t), n).len() == (if s.len() + 1 <= n { (s.len() + 1) as int } else { n as int }),
        last_n(s.push(t), n).last() == t,
{
}

} // verus!
