//! Assembly of glyph grids into ANSI-coloured text: each row is the glyphs
//! of its cells, preceded by a colour escape wherever the colour changes,
//! and ends with a reset; rows are joined by newlines.

use vstd::prelude::*;
use vstd::utf8::*;
use crate::palette::{
    decimal_digits, is_fg_sgr_table, palette_fg_sgr, push_truecolor_bg, push_truecolor_fg, reset_sgr,
    truecolor_bg_sgr, truecolor_fg_sgr, truecolor_sgr,
};
use crate::text::{has_no_newline_byte, push_char};

verus! {

/// Whether a palette cell `(glyph, colour)` emits a colour escape after the
/// colour `prev` was last selected: not for blanks when blanks are skipped,
/// and not when the colour is already selected.
pub open spec fn palette_emits(prev: Option<u8>, cell: (char, u8), skip_blank: bool) -> bool {
    !(skip_blank && cell.0 == ' ') && prev != Some(cell.1)
}

/// The colour selected after a row of palette cells.
pub open spec fn palette_state(cells: Seq<(char, u8)>, skip_blank: bool, init: Option<u8>) -> Option<u8>
    decreases cells.len(),
{
    if cells.len() == 0 {
        init
    } else {
        let prev = palette_state(cells.drop_last(), skip_blank, init);
        if palette_emits(prev, cells.last(), skip_blank) {
            Some(cells.last().1)
        } else {
            prev
        }
    }
}

/// The bytes of a row of palette cells.
pub open spec fn palette_row(cells: Seq<(char, u8)>, skip_blank: bool, init: Option<u8>) -> Seq<u8>
    decreases cells.len(),
{
    if cells.len() == 0 {
        seq![]
    } else {
        let prev = palette_state(cells.drop_last(), skip_blank, init);
        palette_row(cells.drop_last(), skip_blank, init) + (if palette_emits(prev, cells.last(), skip_blank) {
            palette_fg_sgr(cells.last().1 as nat)
        } else {
            seq![]
        }) + encode_scalar(cells.last().0 as u32)
    }
}

/// The number of colour escapes in a row of palette cells.
pub open spec fn palette_changes(cells: Seq<(char, u8)>, skip_blank: bool, init: Option<u8>) -> int
    decreases cells.len(),
{
    if cells.len() == 0 {
        0
    } else {
        let prev = palette_state(cells.drop_last(), skip_blank, init);
        palette_changes(cells.drop_last(), skip_blank, init) + (if palette_emits(
            prev,
            cells.last(),
            skip_blank,
        ) {
            1int
        } else {
            0int
        })
    }
}

/// Whether a truecolor cell emits a colour escape: blanks never do, and
/// neither does a colour already selected.
pub open spec fn rgb_emits(prev: Option<(u8, u8, u8)>, cell: (char, (u8, u8, u8))) -> bool {
    cell.0 != ' ' && prev != Some(cell.1)
}

/// The colour selected after a row of truecolor cells.
pub open spec fn rgb_state(cells: Seq<(char, (u8, u8, u8))>) -> Option<(u8, u8, u8)>
    decreases cells.len(),
{
    if cells.len() == 0 {
        None
    } else {
        let prev = rgb_state(cells.drop_last());
        if rgb_emits(prev, cells.last()) {
            Some(cells.last().1)
        } else {
            prev
        }
    }
}

/// The bytes of a row of truecolor cells.
pub open spec fn rgb_row(cells: Seq<(char, (u8, u8, u8))>) -> Seq<u8>
    decreases cells.len(),
{
    if cells.len() == 0 {
        seq![]
    } else {
        let prev = rgb_state(cells.drop_last());
        let c = cells.last().1;
        rgb_row(cells.drop_last()) + (if rgb_emits(prev, cells.last()) {
            truecolor_fg_sgr(c.0, c.1, c.2)
        } else {
            seq![]
        }) + encode_scalar(cells.last().0 as u32)
    }
}

/// The number of colour escapes in a row of truecolor cells.
pub open spec fn rgb_changes(cells: Seq<(char, (u8, u8, u8))>) -> int
    decreases cells.len(),
{
    if cells.len() == 0 {
        0
    } else {
        rgb_changes(cells.drop_last()) + (if rgb_emits(rgb_state(cells.drop_last()), cells.last()) {
            1int
        } else {
            0int
        })
    }
}

/// Row `r` of a grid stored row-major, `columns` cells per row.
pub open spec fn grid_row<T>(cells: Seq<T>, columns: int, r: int) -> Seq<T> {
    cells.subrange(r * columns, r * columns + columns)
}

/// The first `k` of `total` rows of a frame: each row followed by a reset,
/// and by a newline unless it is the last row.
pub open spec fn frame_prefix(row: spec_fn(int) -> Seq<u8>, total: int, k: int) -> Seq<u8>
    decreases k,
{
    if k <= 0 {
        seq![]
    } else {
        frame_prefix(row, total, k - 1) + row(k - 1) + reset_sgr() + (if k < total {
            seq![0x0au8]
        } else {
            seq![]
        })
    }
}

/// A whole frame of `total` rows.
pub open spec fn frame(row: spec_fn(int) -> Seq<u8>, total: int) -> Seq<u8> {
    frame_prefix(row, total, total)
}

/// The sum of `count(r)` over the first `k` rows.
pub open spec fn rows_total(count: spec_fn(int) -> int, k: int) -> int
    decreases k,
{
    if k <= 0 {
        0
    } else {
        rows_total(count, k - 1) + count(k - 1)
    }
}

/// `n` as a `u32`, saturating.
pub open spec fn saturate_u32(n: int) -> u32 {
    if n > u32::MAX {
        u32::MAX
    } else {
        n as u32
    }
}

/// The rows of a palette frame.
pub open spec fn palette_frame_row(
    cells: Seq<(char, u8)>,
    columns: int,
    skip_blank: bool,
    init: Option<u8>,
) -> spec_fn(int) -> Seq<u8> {
    |r: int| palette_row(grid_row(cells, columns, r), skip_blank, init)
}

/// The colour escapes in each row of a palette frame.
pub open spec fn palette_frame_changes(
    cells: Seq<(char, u8)>,
    columns: int,
    skip_blank: bool,
    init: Option<u8>,
) -> spec_fn(int) -> int {
    |r: int| palette_changes(grid_row(cells, columns, r), skip_blank, init)
}

/// The rows of a truecolor frame.
pub open spec fn rgb_frame_row(cells: Seq<(char, (u8, u8, u8))>, columns: int) -> spec_fn(int) -> Seq<u8> {
    |r: int| rgb_row(grid_row(cells, columns, r))
}

/// The colour escapes in each row of a truecolor frame.
pub open spec fn rgb_frame_changes(cells: Seq<(char, (u8, u8, u8))>, columns: int) -> spec_fn(int) -> int {
    |r: int| rgb_changes(grid_row(cells, columns, r))
}

/// The upper half block, drawn in the foreground colour over the background colour.
pub open spec fn upper_half_block() -> u32 {
    0x2580
}

/// The colour selected last in a row of half-block cells for one ground
/// (`0` the foreground, `1` the background): every cell selects its own.
pub open spec fn half_block_selected(
    cells: Seq<((u8, u8, u8), (u8, u8, u8))>,
    ground: int,
) -> Option<(u8, u8, u8)> {
    if cells.len() == 0 {
        None
    } else if ground == 0 {
        Some(cells.last().0)
    } else {
        Some(cells.last().1)
    }
}

/// The bytes of a row of half-block cells `(upper colour, lower colour)`:
/// before each upper half block, a truecolor foreground escape when the
/// upper colour differs from the one selected last in the row, and a
/// truecolor background escape when the lower colour does.
pub open spec fn half_block_row(cells: Seq<((u8, u8, u8), (u8, u8, u8))>) -> Seq<u8>
    decreases cells.len(),
{
    if cells.len() == 0 {
        seq![]
    } else {
        let rest = cells.drop_last();
        let fg = cells.last().0;
        let bg = cells.last().1;
        half_block_row(rest) + (if half_block_selected(rest, 0) != Some(fg) {
            truecolor_fg_sgr(fg.0, fg.1, fg.2)
        } else {
            seq![]
        }) + (if half_block_selected(rest, 1) != Some(bg) {
            truecolor_bg_sgr(bg.0, bg.1, bg.2)
        } else {
            seq![]
        }) + encode_scalar(upper_half_block())
    }
}

/// The number of colour escapes in a row of half-block cells.
pub open spec fn half_block_changes(cells: Seq<((u8, u8, u8), (u8, u8, u8))>) -> int
    decreases cells.len(),
{
    if cells.len() == 0 {
        0
    } else {
        let rest = cells.drop_last();
        half_block_changes(rest) + (if half_block_selected(rest, 0) != Some(cells.last().0) {
            1int
        } else {
            0int
        }) + (if half_block_selected(rest, 1) != Some(cells.last().1) {
            1int
        } else {
            0int
        })
    }
}

/// The rows of a half-block frame.
pub open spec fn half_block_frame_row(
    cells: Seq<((u8, u8, u8), (u8, u8, u8))>,
    columns: int,
) -> spec_fn(int) -> Seq<u8> {
    |r: int| half_block_row(grid_row(cells, columns, r))
}

/// The colour escapes in each row of a half-block frame.
pub open spec fn half_block_frame_changes(
    cells: Seq<((u8, u8, u8), (u8, u8, u8))>,
    columns: int,
) -> spec_fn(int) -> int {
    |r: int| half_block_changes(grid_row(cells, columns, r))
}

/// Each half block of a row shows its own colours: appending a cell to a
/// row appends a foreground escape for its upper colour unless the cell
/// before it in the row had the same upper colour, a background escape for
/// its lower colour unless the cell before it had the same lower colour,
/// and then the upper half block U+2580. So after the escapes before any
/// half block, the last foreground escape of the row selects that cell's
/// upper colour and the last background escape its lower colour.
pub proof fn lemma_half_block_row_step(cells: Seq<((u8, u8, u8), (u8, u8, u8))>, cell: ((u8, u8, u8), (u8, u8, u8)))
    ensures
        half_block_row(cells.push(cell)) == half_block_row(cells) + (if cells.len() > 0 && cells.last().0
            == cell.0 {
            Seq::<u8>::empty()
        } else {
            truecolor_fg_sgr(cell.0.0, cell.0.1, cell.0.2)
        }) + (if cells.len() > 0 && cells.last().1 == cell.1 {
            Seq::<u8>::empty()
        } else {
            truecolor_bg_sgr(cell.1.0, cell.1.1, cell.1.2)
        }) + encode_scalar(0x2580u32),
        half_block_changes(cells.push(cell)) == half_block_changes(cells) + (if cells.len() > 0
            && cells.last().0 == cell.0 {
            0int
        } else {
            1int
        }) + (if cells.len() > 0 && cells.last().1 == cell.1 {
            0int
        } else {
            1int
        }),
{
    assert(cells.push(cell).drop_last() =~= cells);
    assert(cells.push(cell).last() == cell);
}

/// The colour selected after a row of palette cells is the colour of the
/// last cell that selects one (every cell, or every non-blank cell when
/// blanks are skipped), and `init` when there is none.
pub proof fn lemma_palette_state_last(cells: Seq<(char, u8)>, skip_blank: bool, init: Option<u8>)
    ensures
        (forall|i: int| 0 <= i < cells.len() ==> skip_blank && (#[trigger] cells[i]).0 == ' ')
            ==> palette_state(cells, skip_blank, init) == init,
        forall|k: int|
            0 <= k < cells.len() && !(skip_blank && (#[trigger] cells[k]).0 == ' ') && (forall|j: int|
                k < j < cells.len() ==> skip_blank && (#[trigger] cells[j]).0 == ' ')
                ==> palette_state(cells, skip_blank, init) == Some(cells[k].1),
    decreases cells.len(),
{
    if cells.len() > 0 {
        let rest = cells.drop_last();
        lemma_palette_state_last(rest, skip_blank, init);
        assert forall|i: int| 0 <= i < rest.len() implies rest[i] == cells[i] by {}
        assert forall|k: int|
            0 <= k < cells.len() && !(skip_blank && (#[trigger] cells[k]).0 == ' ') && (forall|j: int|
                k < j < cells.len() ==> skip_blank && (#[trigger] cells[j]).0 == ' ')
            implies palette_state(cells, skip_blank, init) == Some(cells[k].1) by {
            if k < cells.len() - 1 {
                assert(skip_blank && cells[cells.len() - 1].0 == ' ');
                assert(rest[k] == cells[k]);
                assert forall|j: int| k < j < rest.len() implies skip_blank && (#[trigger] rest[j]).0 == ' ' by {
                    assert(rest[j] == cells[j]);
                }
            }
        }
        if forall|i: int| 0 <= i < cells.len() ==> skip_blank && (#[trigger] cells[i]).0 == ' ' {
            assert forall|i: int| 0 <= i < rest.len() implies skip_blank && (#[trigger] rest[i]).0 == ' ' by {
                assert(rest[i] == cells[i]);
            }
            assert(skip_blank && cells[cells.len() - 1].0 == ' ');
        }
    }
}

/// The colour selected after a row of truecolor cells is the colour of its
/// last non-blank cell, and none when every cell is blank.
pub proof fn lemma_rgb_state_last(cells: Seq<(char, (u8, u8, u8))>)
    ensures
        (forall|i: int| 0 <= i < cells.len() ==> (#[trigger] cells[i]).0 == ' ') ==> rgb_state(cells) is None,
        forall|k: int|
            0 <= k < cells.len() && (#[trigger] cells[k]).0 != ' ' && (forall|j: int|
                k < j < cells.len() ==> (#[trigger] cells[j]).0 == ' ') ==> rgb_state(cells) == Some(
                cells[k].1,
            ),
    decreases cells.len(),
{
    if cells.len() > 0 {
        let rest = cells.drop_last();
        lemma_rgb_state_last(rest);
        assert forall|k: int|
            0 <= k < cells.len() && (#[trigger] cells[k]).0 != ' ' && (forall|j: int|
                k < j < cells.len() ==> (#[trigger] cells[j]).0 == ' ')
            implies rgb_state(cells) == Some(cells[k].1) by {
            if k < cells.len() - 1 {
                assert(cells[cells.len() - 1].0 == ' ');
                assert(rest[k] == cells[k]);
                assert forall|j: int| k < j < rest.len() implies (#[trigger] rest[j]).0 == ' ' by {
                    assert(rest[j] == cells[j]);
                }
            }
        }
        if forall|i: int| 0 <= i < cells.len() ==> (#[trigger] cells[i]).0 == ' ' {
            assert forall|i: int| 0 <= i < rest.len() implies (#[trigger] rest[i]).0 == ' ' by {
                assert(rest[i] == cells[i]);
            }
            assert(cells[cells.len() - 1].0 == ' ');
        }
    }
}

/// Appending a truecolor cell to a row appends, unless the cell is blank or
/// its colour is the one selected last, the foreground escape of its colour
/// in red, green, blue order, and then its glyph.
pub proof fn lemma_rgb_row_step(cells: Seq<(char, (u8, u8, u8))>, cell: (char, (u8, u8, u8)))
    ensures
        rgb_row(cells.push(cell)) == rgb_row(cells) + (if cell.0 != ' ' && rgb_state(cells) != Some(cell.1) {
            truecolor_fg_sgr(cell.1.0, cell.1.1, cell.1.2)
        } else {
            Seq::<u8>::empty()
        }) + encode_scalar(cell.0 as u32),
{
    assert(cells.push(cell).drop_last() =~= cells);
    assert(cells.push(cell).last() == cell);
}

/// Appending a palette cell to a row appends, unless the cell is a skipped
/// blank or its colour is the one selected last, the escape selecting its
/// palette entry, and then its glyph.
pub proof fn lemma_palette_row_step(cells: Seq<(char, u8)>, skip_blank: bool, init: Option<u8>, cell: (char, u8))
    ensures
        palette_row(cells.push(cell), skip_blank, init) == palette_row(cells, skip_blank, init) + (if !(
        skip_blank && cell.0 == ' ') && palette_state(cells, skip_blank, init) != Some(cell.1) {
            palette_fg_sgr(cell.1 as nat)
        } else {
            Seq::<u8>::empty()
        }) + encode_scalar(cell.0 as u32),
{
    assert(cells.push(cell).drop_last() =~= cells);
    assert(cells.push(cell).last() == cell);
}

/// Appends the reset escape.
pub fn push_reset(output: &mut Vec<u8>)
    ensures
        final(output)@ == old(output)@ + reset_sgr(),
{
    output.push(0x1b);
    output.push(0x5b);
    output.push(0x30);
    output.push(0x6d);
    assert(final(output)@ =~= old(output)@ + reset_sgr());
}

/// Appends a grid of palette cells as a frame: the glyph of each cell, a
/// palette escape before it wherever the colour changes within the row
/// (blank glyphs keep the previous colour when `skip_blank`), a reset after
/// each row, and newlines between rows. `init` is the colour taken as
/// already selected at the start of each row. Returns the number of colour
/// escapes, saturating.
pub fn append_palette_frame(
    output: &mut Vec<u8>,
    cells: &Vec<(char, u8)>,
    columns: usize,
    rows: usize,
    fg_sgr: &Vec<Vec<u8>>,
    skip_blank: bool,
    init: Option<u8>,
) -> (changes: u32)
    requires
        cells@.len() == columns * rows,
        is_fg_sgr_table(fg_sgr@),
    ensures
        final(output)@ == old(output)@ + frame(palette_frame_row(cells@, columns as int, skip_blank, init), rows as int),
        changes == saturate_u32(rows_total(palette_frame_changes(cells@, columns as int, skip_blank, init), rows as int)),
{
    let ghost row_of = palette_frame_row(cells@, columns as int, skip_blank, init);
    let ghost count_of = palette_frame_changes(cells@, columns as int, skip_blank, init);
    let ghost start = output@;
    let cell_count = cells.len();
    let mut changes: u32 = 0;
    let mut row: usize = 0;
    while row < rows
        invariant
            0 <= row <= rows,
            cells@.len() == columns * rows,
            is_fg_sgr_table(fg_sgr@),
            row_of == palette_frame_row(cells@, columns as int, skip_blank, init),
            count_of == palette_frame_changes(cells@, columns as int, skip_blank, init),
            output@ == start + frame_prefix(row_of, rows as int, row as int),
            changes == saturate_u32(rows_total(count_of, row as int)),
            rows_total(count_of, row as int) >= 0,
            cell_count == cells@.len(),
        decreases rows - row,
    {
        assert((row + 1) * columns <= rows * columns) by (nonlinear_arith)
            requires
                row < rows,
        ;
        assert(row * columns + columns == (row + 1) * columns) by (nonlinear_arith);
        let base = row * columns;
        let ghost row_cells = grid_row(cells@, columns as int, row as int);
        let ghost before_row = output@;
        let mut previous: Option<u8> = init;
        let mut row_changes: Ghost<int> = Ghost(0);
        let mut column: usize = 0;
        while column < columns
            invariant
                0 <= column <= columns,
                base == row * columns,
                base + columns <= cells@.len(),
                cells@.len() == columns * rows,
                is_fg_sgr_table(fg_sgr@),
                row_cells == grid_row(cells@, columns as int, row as int),
                output@ == before_row + palette_row(row_cells.subrange(0, column as int), skip_blank, init),
                previous == palette_state(row_cells.subrange(0, column as int), skip_blank, init),
                row_changes@ == palette_changes(row_cells.subrange(0, column as int), skip_blank, init),
                row_changes@ >= 0,
                rows_total(count_of, row as int) >= 0,
                cell_count == cells@.len(),
                changes == saturate_u32(rows_total(count_of, row as int) + row_changes@),
            decreases columns - column,
        {
            let cell = cells[base + column];
            let ghost prefix = row_cells.subrange(0, column as int);
            let ghost next = row_cells.subrange(0, column + 1);
            assert(next.drop_last() =~= prefix);
            assert(next.last() == cell);
            let emits = !(skip_blank && cell.0 == ' ') && match previous {
                Some(p) => p != cell.1,
                None => true,
            };
            if emits {
                let code = &fg_sgr[cell.1 as usize];
                let mut i: usize = 0;
                let ghost before_code = output@;
                while i < code.len()
                    invariant
                        0 <= i <= code@.len(),
                        output@ == before_code + code@.subrange(0, i as int),
                    decreases code@.len() - i,
                {
                    output.push(code[i]);
                    assert(code@.subrange(0, i + 1) =~= code@.subrange(0, i as int).push(code@[i as int]));
                    i += 1;
                }
                assert(code@.subrange(0, code@.len() as int) =~= code@);
                previous = Some(cell.1);
                changes = changes.saturating_add(1);
                proof {
                    row_changes@ = row_changes@ + 1;
                }
            }
            push_char(output, cell.0);
            assert(output@ =~= before_row + palette_row(next, skip_blank, init));
            column += 1;
        }
        assert(row_cells.subrange(0, columns as int) =~= row_cells);
        assert(count_of(row as int) == row_changes@);
        assert(rows_total(count_of, row + 1) == rows_total(count_of, row as int) + row_changes@);
        push_reset(output);
        if row + 1 < rows {
            output.push(0x0a);
        }
        assert(output@ =~= start + frame_prefix(row_of, rows as int, row + 1));
        row += 1;
    }
    changes
}

/// Appends a grid of truecolor cells as a frame: the glyph of each cell, a
/// truecolor escape before each non-blank glyph whose colour differs from
/// the colour last selected in the row, a reset after each row, and
/// newlines between rows. Returns the number of colour escapes, saturating.
pub fn append_rgb_frame(
    output: &mut Vec<u8>,
    cells: &Vec<(char, (u8, u8, u8))>,
    columns: usize,
    rows: usize,
) -> (changes: u32)
    requires
        cells@.len() == columns * rows,
    ensures
        final(output)@ == old(output)@ + frame(rgb_frame_row(cells@, columns as int), rows as int),
        changes == saturate_u32(rows_total(rgb_frame_changes(cells@, columns as int), rows as int)),
{
    let ghost row_of = rgb_frame_row(cells@, columns as int);
    let ghost count_of = rgb_frame_changes(cells@, columns as int);
    let ghost start = output@;
    let cell_count = cells.len();
    let mut changes: u32 = 0;
    let mut row: usize = 0;
    while row < rows
        invariant
            0 <= row <= rows,
            cells@.len() == columns * rows,
            row_of == rgb_frame_row(cells@, columns as int),
            count_of == rgb_frame_changes(cells@, columns as int),
            output@ == start + frame_prefix(row_of, rows as int, row as int),
            changes == saturate_u32(rows_total(count_of, row as int)),
            rows_total(count_of, row as int) >= 0,
            cell_count == cells@.len(),
        decreases rows - row,
    {
        assert((row + 1) * columns <= rows * columns) by (nonlinear_arith)
            requires
                row < rows,
        ;
        assert(row * columns + columns == (row + 1) * columns) by (nonlinear_arith);
        let base = row * columns;
        let ghost row_cells = grid_row(cells@, columns as int, row as int);
        let ghost before_row = output@;
        let mut previous: Option<(u8, u8, u8)> = None;
        let mut row_changes: Ghost<int> = Ghost(0);
        let mut column: usize = 0;
        while column < columns
            invariant
                0 <= column <= columns,
                base == row * columns,
                base + columns <= cells@.len(),
                cells@.len() == columns * rows,
                row_cells == grid_row(cells@, columns as int, row as int),
                output@ == before_row + rgb_row(row_cells.subrange(0, column as int)),
                previous == rgb_state(row_cells.subrange(0, column as int)),
                row_changes@ == rgb_changes(row_cells.subrange(0, column as int)),
                row_changes@ >= 0,
                rows_total(count_of, row as int) >= 0,
                cell_count == cells@.len(),
                changes == saturate_u32(rows_total(count_of, row as int) + row_changes@),
            decreases columns - column,
        {
            let cell = cells[base + column];
            let ghost prefix = row_cells.subrange(0, column as int);
            let ghost next = row_cells.subrange(0, column + 1);
            assert(next.drop_last() =~= prefix);
            assert(next.last() == cell);
            let (r, g, b) = cell.1;
            let same = match previous {
                Some(p) => p.0 == r && p.1 == g && p.2 == b,
                None => false,
            };
            if cell.0 != ' ' && !same {
                push_truecolor_fg(output, r, g, b);
                previous = Some((r, g, b));
                changes = changes.saturating_add(1);
                proof {
                    row_changes@ = row_changes@ + 1;
                }
            }
            push_char(output, cell.0);
            assert(output@ =~= before_row + rgb_row(next));
            column += 1;
        }
        assert(row_cells.subrange(0, columns as int) =~= row_cells);
        assert(count_of(row as int) == row_changes@);
        assert(rows_total(count_of, row + 1) == rows_total(count_of, row as int) + row_changes@);
        push_reset(output);
        if row + 1 < rows {
            output.push(0x0a);
        }
        assert(output@ =~= start + frame_prefix(row_of, rows as int, row + 1));
        row += 1;
    }
    changes
}

/// Appends a grid of half-block cells `(upper colour, lower colour)` as a
/// frame: an upper half block per cell, preceded by the truecolor escapes of
/// whichever of its colours differ from those selected last in the row, a
/// reset after each row, and newlines between rows. Returns the number of
/// colour escapes, saturating.
pub fn append_half_block_frame(
    output: &mut Vec<u8>,
    cells: &Vec<((u8, u8, u8), (u8, u8, u8))>,
    columns: usize,
    rows: usize,
) -> (changes: u32)
    requires
        cells@.len() == columns * rows,
    ensures
        final(output)@ == old(output)@ + frame(half_block_frame_row(cells@, columns as int), rows as int),
        changes == saturate_u32(rows_total(half_block_frame_changes(cells@, columns as int), rows as int)),
{
    let ghost row_of = half_block_frame_row(cells@, columns as int);
    let ghost count_of = half_block_frame_changes(cells@, columns as int);
    let ghost start = output@;
    let cell_count = cells.len();
    let mut changes: u32 = 0;
    let mut row: usize = 0;
    while row < rows
        invariant
            0 <= row <= rows,
            cells@.len() == columns * rows,
            row_of == half_block_frame_row(cells@, columns as int),
            count_of == half_block_frame_changes(cells@, columns as int),
            output@ == start + frame_prefix(row_of, rows as int, row as int),
            changes == saturate_u32(rows_total(count_of, row as int)),
            rows_total(count_of, row as int) >= 0,
            cell_count == cells@.len(),
        decreases rows - row,
    {
        assert((row + 1) * columns <= rows * columns) by (nonlinear_arith)
            requires
                row < rows,
        ;
        assert(row * columns + columns == (row + 1) * columns) by (nonlinear_arith);
        let base = row * columns;
        let ghost row_cells = grid_row(cells@, columns as int, row as int);
        let ghost before_row = output@;
        let mut fg: Option<(u8, u8, u8)> = None;
        let mut bg: Option<(u8, u8, u8)> = None;
        let mut row_changes: Ghost<int> = Ghost(0);
        let mut column: usize = 0;
        while column < columns
            invariant
                0 <= column <= columns,
                base == row * columns,
                base + columns <= cells@.len(),
                cells@.len() == columns * rows,
                row_cells == grid_row(cells@, columns as int, row as int),
                output@ == before_row + half_block_row(row_cells.subrange(0, column as int)),
                fg == half_block_selected(row_cells.subrange(0, column as int), 0),
                bg == half_block_selected(row_cells.subrange(0, column as int), 1),
                row_changes@ == half_block_changes(row_cells.subrange(0, column as int)),
                row_changes@ >= 0,
                rows_total(count_of, row as int) >= 0,
                cell_count == cells@.len(),
                changes == saturate_u32(rows_total(count_of, row as int) + row_changes@),
            decreases columns - column,
        {
            let cell = cells[base + column];
            let ghost prefix = row_cells.subrange(0, column as int);
            let ghost next = row_cells.subrange(0, column + 1);
            assert(next.drop_last() =~= prefix);
            assert(next.last() == cell);
            let (upper, lower) = cell;
            let same_fg = match fg {
                Some(p) => p.0 == upper.0 && p.1 == upper.1 && p.2 == upper.2,
                None => false,
            };
            if !same_fg {
                push_truecolor_fg(output, upper.0, upper.1, upper.2);
                changes = changes.saturating_add(1);
                proof {
                    row_changes@ = row_changes@ + 1;
                }
            }
            let same_bg = match bg {
                Some(p) => p.0 == lower.0 && p.1 == lower.1 && p.2 == lower.2,
                None => false,
            };
            if !same_bg {
                push_truecolor_bg(output, lower.0, lower.1, lower.2);
                changes = changes.saturating_add(1);
                proof {
                    row_changes@ = row_changes@ + 1;
                }
            }
            fg = Some(upper);
            bg = Some(lower);
            push_char(output, '\u{2580}');
            assert(output@ =~= before_row + half_block_row(next));
            column += 1;
        }
        assert(row_cells.subrange(0, columns as int) =~= row_cells);
        assert(count_of(row as int) == row_changes@);
        assert(rows_total(count_of, row + 1) == rows_total(count_of, row as int) + row_changes@);
        push_reset(output);
        if row + 1 < rows {
            output.push(0x0a);
        }
        assert(output@ =~= start + frame_prefix(row_of, rows as int, row + 1));
        row += 1;
    }
    changes
}

/// Bytes that are all ASCII.
pub open spec fn is_ascii_bytes(bytes: Seq<u8>) -> bool {
    forall|i: int| 0 <= i < bytes.len() ==> #[trigger] bytes[i] < 0x80
}

/// ASCII bytes are valid UTF-8.
pub proof fn lemma_ascii_valid(bytes: Seq<u8>)
    requires
        is_ascii_bytes(bytes),
    ensures
        valid_utf8(bytes),
{
    assert(bytes.subrange(0, 0) =~= Seq::<u8>::empty());
    assert(partial_valid_utf8(bytes, 0));
    assert forall|i: int| 0 <= 0 <= i < bytes.len() <= bytes.len() implies #[trigger] is_leading_byte_width_1(
        bytes[i],
    ) by {}
    partial_valid_utf8_extend_ascii_block(bytes, 0, bytes.len() as int);
    assert(bytes.subrange(0, bytes.len() as int) =~= bytes);
}

proof fn lemma_decimal_ascii(n: nat)
    ensures
        is_ascii_bytes(decimal_digits(n)),
    decreases n,
{
    if n >= 10 {
        lemma_decimal_ascii(n / 10);
    }
}

/// The palette escapes are ASCII.
pub proof fn lemma_palette_sgr_ascii(index: nat)
    ensures
        is_ascii_bytes(palette_fg_sgr(index)),
{
    lemma_decimal_ascii(index);
}

/// The truecolor escapes are ASCII.
pub proof fn lemma_truecolor_sgr_ascii(ground_digit: u8, r: u8, g: u8, b: u8)
    requires
        ground_digit < 0x80,
    ensures
        is_ascii_bytes(truecolor_sgr(ground_digit, r, g, b)),
{
    lemma_decimal_ascii(r as nat);
    lemma_decimal_ascii(g as nat);
    lemma_decimal_ascii(b as nat);
}

/// The encoding of one character is valid UTF-8.
pub proof fn lemma_scalar_valid(c: char)
    ensures
        valid_utf8(encode_scalar(c as u32)),
{
    let s = seq![c];
    assert(s.drop_first() =~= Seq::<char>::empty());
    assert(s[0] == c);
    assert(encode_utf8(Seq::<char>::empty()) =~= Seq::<u8>::empty());
    assert(encode_utf8(s) == encode_scalar(s[0] as u32) + encode_utf8(s.drop_first()));
    assert(encode_utf8(s) =~= encode_scalar(c as u32));
    encode_utf8_valid_utf8(s);
}

/// The empty byte sequence is valid UTF-8.
pub proof fn lemma_empty_valid()
    ensures
        valid_utf8(Seq::<u8>::empty()),
{
    lemma_ascii_valid(Seq::<u8>::empty());
}

proof fn lemma_concat3_valid(a: Seq<u8>, b: Seq<u8>, c: Seq<u8>)
    requires
        valid_utf8(a),
        valid_utf8(b),
        valid_utf8(c),
    ensures
        valid_utf8(a + b + c),
{
    valid_utf8_concat(a, b);
    valid_utf8_concat(a + b, c);
}

/// Rows of palette cells are valid UTF-8.
pub proof fn lemma_palette_row_valid(cells: Seq<(char, u8)>, skip_blank: bool, init: Option<u8>)
    ensures
        valid_utf8(palette_row(cells, skip_blank, init)),
    decreases cells.len(),
{
    lemma_empty_valid();
    if cells.len() > 0 {
        let prev = palette_state(cells.drop_last(), skip_blank, init);
        lemma_palette_row_valid(cells.drop_last(), skip_blank, init);
        lemma_palette_sgr_ascii(cells.last().1 as nat);
        lemma_ascii_valid(palette_fg_sgr(cells.last().1 as nat));
        lemma_scalar_valid(cells.last().0);
        let code = if palette_emits(prev, cells.last(), skip_blank) {
            palette_fg_sgr(cells.last().1 as nat)
        } else {
            Seq::<u8>::empty()
        };
        lemma_concat3_valid(
            palette_row(cells.drop_last(), skip_blank, init),
            code,
            encode_scalar(cells.last().0 as u32),
        );
    }
}

/// Rows of truecolor cells are valid UTF-8.
pub proof fn lemma_rgb_row_valid(cells: Seq<(char, (u8, u8, u8))>)
    ensures
        valid_utf8(rgb_row(cells)),
    decreases cells.len(),
{
    lemma_empty_valid();
    if cells.len() > 0 {
        let c = cells.last().1;
        lemma_rgb_row_valid(cells.drop_last());
        lemma_truecolor_sgr_ascii(0x33u8, c.0, c.1, c.2);
        lemma_ascii_valid(truecolor_fg_sgr(c.0, c.1, c.2));
        lemma_scalar_valid(cells.last().0);
        let code = if rgb_emits(rgb_state(cells.drop_last()), cells.last()) {
            truecolor_fg_sgr(c.0, c.1, c.2)
        } else {
            Seq::<u8>::empty()
        };
        lemma_concat3_valid(rgb_row(cells.drop_last()), code, encode_scalar(cells.last().0 as u32));
    }
}

/// A frame of valid UTF-8 rows is valid UTF-8.
pub proof fn lemma_frame_valid(row: spec_fn(int) -> Seq<u8>, total: int, k: int)
    requires
        forall|r: int| 0 <= r < k ==> valid_utf8(#[trigger] row(r)),
    ensures
        valid_utf8(frame_prefix(row, total, k)),
    decreases k,
{
    lemma_empty_valid();
    if k > 0 {
        lemma_frame_valid(row, total, k - 1);
        lemma_ascii_valid(reset_sgr());
        lemma_ascii_valid(seq![0x0au8]);
        assert(valid_utf8(row(k - 1)));
        let nl = if k < total {
            seq![0x0au8]
        } else {
            Seq::<u8>::empty()
        };
        lemma_concat3_valid(frame_prefix(row, total, k - 1), row(k - 1), reset_sgr());
        valid_utf8_concat(frame_prefix(row, total, k - 1) + row(k - 1) + reset_sgr(), nl);
    }
}

/// Palette frames are valid UTF-8.
pub proof fn lemma_palette_frame_valid(
    cells: Seq<(char, u8)>,
    columns: int,
    skip_blank: bool,
    init: Option<u8>,
    total: int,
)
    ensures
        valid_utf8(frame(palette_frame_row(cells, columns, skip_blank, init), total)),
{
    let row = palette_frame_row(cells, columns, skip_blank, init);
    assert forall|r: int| 0 <= r < total implies valid_utf8(#[trigger] row(r)) by {
        lemma_palette_row_valid(grid_row(cells, columns, r), skip_blank, init);
    }
    lemma_frame_valid(row, total, total);
}

/// Truecolor frames are valid UTF-8.
pub proof fn lemma_rgb_frame_valid(cells: Seq<(char, (u8, u8, u8))>, columns: int, total: int)
    ensures
        valid_utf8(frame(rgb_frame_row(cells, columns), total)),
{
    let row = rgb_frame_row(cells, columns);
    assert forall|r: int| 0 <= r < total implies valid_utf8(#[trigger] row(r)) by {
        lemma_rgb_row_valid(grid_row(cells, columns, r));
    }
    lemma_frame_valid(row, total, total);
}

proof fn lemma_decimal_digit_bytes(n: nat)
    ensures
        forall|i: int|
            0 <= i < decimal_digits(n).len() ==> 0x30 <= #[trigger] decimal_digits(n)[i] <= 0x39,
    decreases n,
{
    if n >= 10 {
        lemma_decimal_digit_bytes(n / 10);
        let d = decimal_digits(n / 10);
        let last = (48 + n % 10) as u8;
        assert(decimal_digits(n) == d.push(last));
        assert forall|i: int| 0 <= i < decimal_digits(n).len() implies 0x30 <= #[trigger] decimal_digits(
            n,
        )[i] <= 0x39 by {
            if i < d.len() {
                assert(decimal_digits(n)[i] == d[i]);
            } else {
                assert(decimal_digits(n)[i] == last);
            }
        }
    }
}

/// The encoding of a character other than a line feed holds no line-feed
/// byte: a one-byte encoding is the character itself, and every byte of a
/// longer one is at least 0x80.
pub proof fn lemma_scalar_no_newline(c: char)
    requires
        c != '\n',
    ensures
        has_no_newline_byte(encode_scalar(c as u32)),
{
    char_is_scalar(c);
    let v = c as u32;
    if has_width_1_encoding(v) {
        assert(v != 10u32);
        assert(leading_byte_width_1(v) != 0x0au8) by (bit_vector)
            requires
                v <= 0x7f,
                v != 10u32,
        ;
    } else {
        assert(0x80u8 | ((v >> 6) & 0x1F) as u8 >= 0x80u8) by (bit_vector);
        assert(leading_byte_width_2(v) >= 0x80u8) by (bit_vector);
        assert(leading_byte_width_3(v) >= 0x80u8) by (bit_vector);
        assert(leading_byte_width_4(v) >= 0x80u8) by (bit_vector);
        assert(last_continuation_byte(v) >= 0x80u8) by (bit_vector);
        assert(second_last_continuation_byte(v) >= 0x80u8) by (bit_vector);
        assert(third_last_continuation_byte(v) >= 0x80u8) by (bit_vector);
    }
}

/// Cells none of whose glyphs is a line feed.
pub open spec fn glyphs_without_newline<T>(cells: Seq<(char, T)>) -> bool {
    forall|i: int| 0 <= i < cells.len() ==> (#[trigger] cells[i]).0 != '\n'
}

proof fn lemma_concat3_no_newline(a: Seq<u8>, b: Seq<u8>, c: Seq<u8>)
    requires
        has_no_newline_byte(a),
        has_no_newline_byte(b),
        has_no_newline_byte(c),
    ensures
        has_no_newline_byte(a + b + c),
{
    let ab = a + b;
    assert forall|i: int| 0 <= i < ab.len() implies #[trigger] ab[i] != 0x0au8 by {
        if i < a.len() {
            assert(ab[i] == a[i]);
        } else {
            assert(ab[i] == b[i - a.len()]);
        }
    }
    let abc = ab + c;
    assert forall|i: int| 0 <= i < abc.len() implies #[trigger] abc[i] != 0x0au8 by {
        if i < ab.len() {
            assert(abc[i] == ab[i]);
        } else {
            assert(abc[i] == c[i - ab.len()]);
        }
    }
}

/// A row of palette cells holds no line-feed byte when no glyph is a line feed.
pub proof fn lemma_palette_row_no_newline(cells: Seq<(char, u8)>, skip_blank: bool, init: Option<u8>)
    requires
        glyphs_without_newline(cells),
    ensures
        has_no_newline_byte(palette_row(cells, skip_blank, init)),
    decreases cells.len(),
{
    if cells.len() > 0 {
        let rest = cells.drop_last();
        assert(glyphs_without_newline(rest)) by {
            assert forall|i: int| 0 <= i < rest.len() implies (#[trigger] rest[i]).0 != '\n' by {
                assert(rest[i] == cells[i]);
            }
        }
        lemma_palette_row_no_newline(rest, skip_blank, init);
        let prev = palette_state(rest, skip_blank, init);
        let index = cells.last().1 as nat;
        lemma_decimal_digit_bytes(index);
        let sgr = palette_fg_sgr(index);
        assert forall|i: int| 0 <= i < sgr.len() implies #[trigger] sgr[i] != 0x0au8 by {
            if 7 <= i < sgr.len() - 1 {
                assert(sgr[i] == decimal_digits(index)[i - 7]);
            }
        }
        let code = if palette_emits(prev, cells.last(), skip_blank) {
            sgr
        } else {
            Seq::<u8>::empty()
        };
        assert(cells.last() == cells[cells.len() - 1]);
        lemma_scalar_no_newline(cells.last().0);
        lemma_concat3_no_newline(
            palette_row(rest, skip_blank, init),
            code,
            encode_scalar(cells.last().0 as u32),
        );
    }
}

/// A row of truecolor cells holds no line-feed byte when no glyph is a line feed.
pub proof fn lemma_rgb_row_no_newline(cells: Seq<(char, (u8, u8, u8))>)
    requires
        glyphs_without_newline(cells),
    ensures
        has_no_newline_byte(rgb_row(cells)),
    decreases cells.len(),
{
    if cells.len() > 0 {
        let rest = cells.drop_last();
        assert(glyphs_without_newline(rest)) by {
            assert forall|i: int| 0 <= i < rest.len() implies (#[trigger] rest[i]).0 != '\n' by {
                assert(rest[i] == cells[i]);
            }
        }
        lemma_rgb_row_no_newline(rest);
        let c = cells.last().1;
        lemma_decimal_digit_bytes(c.0 as nat);
        lemma_decimal_digit_bytes(c.1 as nat);
        lemma_decimal_digit_bytes(c.2 as nat);
        let sgr = truecolor_fg_sgr(c.0, c.1, c.2);
        let d0 = decimal_digits(c.0 as nat);
        let d1 = decimal_digits(c.1 as nat);
        let d2 = decimal_digits(c.2 as nat);
        let head = seq![0x1bu8, 0x5bu8, 0x33u8, 0x38u8, 0x3bu8, 0x32u8, 0x3bu8];
        let semi = seq![0x3bu8];
        let tail = seq![0x6du8];
        assert(sgr == head + d0 + semi + d1 + semi + d2 + tail);
        assert forall|i: int| 0 <= i < head.len() implies #[trigger] head[i] != 0x0au8 by {}
        assert forall|i: int| 0 <= i < semi.len() implies #[trigger] semi[i] != 0x0au8 by {}
        assert forall|i: int| 0 <= i < tail.len() implies #[trigger] tail[i] != 0x0au8 by {}
        assert forall|i: int| 0 <= i < d0.len() implies #[trigger] d0[i] != 0x0au8 by {}
        assert forall|i: int| 0 <= i < d1.len() implies #[trigger] d1[i] != 0x0au8 by {}
        assert forall|i: int| 0 <= i < d2.len() implies #[trigger] d2[i] != 0x0au8 by {}
        lemma_concat3_no_newline(head, d0, semi);
        lemma_concat3_no_newline(head + d0 + semi, d1, semi);
        lemma_concat3_no_newline(head + d0 + semi + d1 + semi, d2, tail);
        let code = if rgb_emits(rgb_state(rest), cells.last()) {
            sgr
        } else {
            Seq::<u8>::empty()
        };
        assert(cells.last() == cells[cells.len() - 1]);
        lemma_scalar_no_newline(cells.last().0);
        lemma_concat3_no_newline(rgb_row(rest), code, encode_scalar(cells.last().0 as u32));
    }
}

/// Rows of half-block cells are valid UTF-8.
pub proof fn lemma_half_block_row_valid(cells: Seq<((u8, u8, u8), (u8, u8, u8))>)
    ensures
        valid_utf8(half_block_row(cells)),
    decreases cells.len(),
{
    lemma_empty_valid();
    if cells.len() > 0 {
        let rest = cells.drop_last();
        let fg = cells.last().0;
        let bg = cells.last().1;
        lemma_half_block_row_valid(rest);
        lemma_truecolor_sgr_ascii(0x33u8, fg.0, fg.1, fg.2);
        lemma_truecolor_sgr_ascii(0x34u8, bg.0, bg.1, bg.2);
        lemma_ascii_valid(truecolor_fg_sgr(fg.0, fg.1, fg.2));
        lemma_ascii_valid(truecolor_bg_sgr(bg.0, bg.1, bg.2));
        lemma_scalar_valid('\u{2580}');
        assert('\u{2580}' as u32 == upper_half_block());
        let fg_code = if half_block_selected(rest, 0) != Some(fg) {
            truecolor_fg_sgr(fg.0, fg.1, fg.2)
        } else {
            Seq::<u8>::empty()
        };
        let bg_code = if half_block_selected(rest, 1) != Some(bg) {
            truecolor_bg_sgr(bg.0, bg.1, bg.2)
        } else {
            Seq::<u8>::empty()
        };
        lemma_concat3_valid(half_block_row(rest), fg_code, bg_code);
        valid_utf8_concat(half_block_row(rest) + fg_code + bg_code, encode_scalar(upper_half_block()));
    }
}

/// Half-block frames are valid UTF-8.
pub proof fn lemma_half_block_frame_valid(cells: Seq<((u8, u8, u8), (u8, u8, u8))>, columns: int, total: int)
    ensures
        valid_utf8(frame(half_block_frame_row(cells, columns), total)),
{
    let row = half_block_frame_row(cells, columns);
    assert forall|r: int| 0 <= r < total implies valid_utf8(#[trigger] row(r)) by {
        lemma_half_block_row_valid(grid_row(cells, columns, r));
    }
    lemma_frame_valid(row, total, total);
}

proof fn lemma_truecolor_no_newline(ground_digit: u8, r: u8, g: u8, b: u8)
    requires
        ground_digit != 0x0au8,
    ensures
        has_no_newline_byte(truecolor_sgr(ground_digit, r, g, b)),
{
    lemma_decimal_digit_bytes(r as nat);
    lemma_decimal_digit_bytes(g as nat);
    lemma_decimal_digit_bytes(b as nat);
    let d0 = decimal_digits(r as nat);
    let d1 = decimal_digits(g as nat);
    let d2 = decimal_digits(b as nat);
    let head = seq![0x1bu8, 0x5bu8, ground_digit, 0x38u8, 0x3bu8, 0x32u8, 0x3bu8];
    let semi = seq![0x3bu8];
    let tail = seq![0x6du8];
    assert(truecolor_sgr(ground_digit, r, g, b) == head + d0 + semi + d1 + semi + d2 + tail);
    assert forall|i: int| 0 <= i < head.len() implies #[trigger] head[i] != 0x0au8 by {}
    assert forall|i: int| 0 <= i < semi.len() implies #[trigger] semi[i] != 0x0au8 by {}
    assert forall|i: int| 0 <= i < tail.len() implies #[trigger] tail[i] != 0x0au8 by {}
    assert forall|i: int| 0 <= i < d0.len() implies #[trigger] d0[i] != 0x0au8 by {}
    assert forall|i: int| 0 <= i < d1.len() implies #[trigger] d1[i] != 0x0au8 by {}
    assert forall|i: int| 0 <= i < d2.len() implies #[trigger] d2[i] != 0x0au8 by {}
    lemma_concat3_no_newline(head, d0, semi);
    lemma_concat3_no_newline(head + d0 + semi, d1, semi);
    lemma_concat3_no_newline(head + d0 + semi + d1 + semi, d2, tail);
}

/// A row of half-block cells holds no line-feed byte.
pub proof fn lemma_half_block_row_no_newline(cells: Seq<((u8, u8, u8), (u8, u8, u8))>)
    ensures
        has_no_newline_byte(half_block_row(cells)),
    decreases cells.len(),
{
    if cells.len() > 0 {
        let rest = cells.drop_last();
        let fg = cells.last().0;
        let bg = cells.last().1;
        lemma_half_block_row_no_newline(rest);
        lemma_truecolor_no_newline(0x33u8, fg.0, fg.1, fg.2);
        lemma_truecolor_no_newline(0x34u8, bg.0, bg.1, bg.2);
        let fg_code = if half_block_selected(rest, 0) != Some(fg) {
            truecolor_fg_sgr(fg.0, fg.1, fg.2)
        } else {
            Seq::<u8>::empty()
        };
        let bg_code = if half_block_selected(rest, 1) != Some(bg) {
            truecolor_bg_sgr(bg.0, bg.1, bg.2)
        } else {
            Seq::<u8>::empty()
        };
        lemma_scalar_no_newline('\u{2580}');
        assert('\u{2580}' as u32 == upper_half_block());
        lemma_concat3_no_newline(half_block_row(rest), fg_code, bg_code);
        lemma_concat3_no_newline(
            half_block_row(rest) + fg_code + bg_code,
            encode_scalar(upper_half_block()),
            Seq::<u8>::empty(),
        );
        assert(half_block_row(cells) =~= half_block_row(rest) + fg_code + bg_code + encode_scalar(
            upper_half_block(),
        ) + Seq::<u8>::empty());
    }
}

/// A frame of at least one row ends with the reset escape, so no colour
/// leaks past the frame; a frame of no rows is empty.
pub proof fn lemma_frame_ends_with_reset(row: spec_fn(int) -> Seq<u8>, total: int)
    ensures
        total >= 1 ==> {
            let f = frame(row, total);
            &&& f.len() >= 4
            &&& f.subrange(f.len() - 4, f.len() as int) == reset_sgr()
        },
        total <= 0 ==> frame(row, total) == Seq::<u8>::empty(),
{
    if total >= 1 {
        let f = frame(row, total);
        let p = frame_prefix(row, total, total - 1) + row(total - 1);
        assert(f =~= p + reset_sgr() + Seq::<u8>::empty());
        assert(f.subrange(f.len() - 4, f.len() as int) =~= reset_sgr());
    }
}

} // verus!
