//! Terminal-side decisions: what a key press means, how a frame row and the
//! status line are padded to the terminal width, and where the video sits.

use vstd::prelude::*;
use vstd::utf8::*;
use crate::text::{chars_of, lemma_encode_utf8_concat, string_from_chars};

verus! {

/// What the player should do after polling the terminal.
#[derive(Clone, Copy, Debug, PartialEq, Eq)]
pub enum TerminalEvent {
    Idle,
    Exit,
    ToggleRenderer,
}

/// The key of a key event: a character, or any other key.
#[derive(Clone, Copy, Debug, PartialEq, Eq)]
pub enum KeyCode {
    Char(char),
    Other,
}

/// The modifier keys held during a key event.
#[derive(Clone, Copy, Debug, PartialEq, Eq)]
pub struct KeyModifiers {
    pub shift: bool,
    pub control: bool,
    pub alt: bool,
}

/// Whether a key event is a press, a repeat or a release.
#[derive(Clone, Copy, Debug, PartialEq, Eq)]
pub enum KeyEventKind {
    Press,
    Repeat,
    Release,
}

/// The meaning of a key event: releases mean nothing; Ctrl with `c` or `C`
/// exits; `r` or `R` without Ctrl or Alt switches the renderer.
pub open spec fn key_event_meaning(code: KeyCode, modifiers: KeyModifiers, kind: KeyEventKind) -> TerminalEvent {
    if kind == KeyEventKind::Release {
        TerminalEvent::Idle
    } else if (code == KeyCode::Char('c') || code == KeyCode::Char('C')) && modifiers.control {
        TerminalEvent::Exit
    } else if (code == KeyCode::Char('r') || code == KeyCode::Char('R')) && !modifiers.control
        && !modifiers.alt {
        TerminalEvent::ToggleRenderer
    } else {
        TerminalEvent::Idle
    }
}

/// Decides what a key event means to the player.
pub fn classify_key_event(code: KeyCode, modifiers: KeyModifiers, kind: KeyEventKind) -> (event: TerminalEvent)
    ensures
        event == key_event_meaning(code, modifiers, kind),
{
    if let KeyEventKind::Release = kind {
        return TerminalEvent::Idle;
    }
    match code {
        KeyCode::Char(c) => {
            if (c == 'c' || c == 'C') && modifiers.control {
                TerminalEvent::Exit
            } else if (c == 'r' || c == 'R') && !modifiers.control && !modifiers.alt {
                TerminalEvent::ToggleRenderer
            } else {
                TerminalEvent::Idle
            }
        },
        KeyCode::Other => TerminalEvent::Idle,
    }
}

/// `n` spaces.
pub open spec fn spaces(n: int) -> Seq<char> {
    Seq::new(if n < 0 { 0nat } else { n as nat }, |i: int| ' ')
}

/// The spaces after a frame row: the terminal width less the left padding
/// and the visible part of the video, and never less than none.
pub open spec fn frame_row_right_pad(offset_col: u16, render_cols: u16, terminal_cols: u16) -> int {
    let width = terminal_cols as int;
    let left = offset_col as int;
    let room = if width > left { width - left } else { 0 };
    let visible = if (render_cols as int) < room { render_cols as int } else { room };
    if width > left + visible { width - (left + visible) } else { 0 }
}

fn push_spaces(chars: &mut Vec<char>, n: usize)
    ensures
        final(chars)@ == old(chars)@ + spaces(n as int),
{
    let mut i: usize = 0;
    while i < n
        invariant
            0 <= i <= n,
            chars@ == old(chars)@ + spaces(i as int),
        decreases n - i,
    {
        chars.push(' ');
        assert(chars@ =~= old(chars)@ + spaces(i + 1));
        i += 1;
    }
}

/// A frame row placed in a terminal row: `offset_col` spaces, the row's
/// content unchanged (escape sequences included), and spaces to the
/// terminal width.
pub fn compose_frame_row(content: &str, offset_col: u16, render_cols: u16, terminal_cols: u16) -> (line: String)
    ensures
        line@ == spaces(offset_col as int) + content@ + spaces(
            frame_row_right_pad(offset_col, render_cols, terminal_cols),
        ),
{
    let width = terminal_cols as usize;
    let left_pad = offset_col as usize;
    let room = width.saturating_sub(left_pad);
    let visible_content_width = if (render_cols as usize) < room {
        render_cols as usize
    } else {
        room
    };
    let right_pad = width.saturating_sub(left_pad + visible_content_width);
    let mut chars: Vec<char> = Vec::new();
    push_spaces(&mut chars, left_pad);
    let content_chars = chars_of(content);
    let mut i: usize = 0;
    let ghost head = chars@;
    while i < content_chars.len()
        invariant
            0 <= i <= content_chars@.len(),
            chars@ == head + content_chars@.subrange(0, i as int),
        decreases content_chars@.len() - i,
    {
        chars.push(content_chars[i]);
        assert(chars@ =~= head + content_chars@.subrange(0, i + 1));
        i += 1;
    }
    assert(content_chars@.subrange(0, content_chars@.len() as int) =~= content@);
    push_spaces(&mut chars, right_pad);
    string_from_chars(chars.as_slice())
}

/// The characters of a status line that fit: at most `width` of them.
pub open spec fn status_prefix(status: Seq<char>, width: int) -> Seq<char> {
    if status.len() <= width {
        status
    } else {
        status.subrange(0, width)
    }
}

/// A status line fitted to the terminal width: its first `terminal_cols`
/// characters, then as many spaces as the UTF-8 byte length of those
/// characters falls short of the width.
pub open spec fn fitted_status(status: Seq<char>, terminal_cols: u16) -> Seq<char> {
    let prefix = status_prefix(status, terminal_cols as int);
    prefix + spaces(terminal_cols as int - encode_utf8(prefix).len())
}

/// Fits a status line to the terminal width.
pub fn fit_status_line(status_line: &str, terminal_cols: u16) -> (line: String)
    ensures
        line@ == fitted_status(status_line@, terminal_cols),
{
    let width = terminal_cols as usize;
    let all = chars_of(status_line);
    let mut chars: Vec<char> = Vec::new();
    let mut i: usize = 0;
    while i < all.len() && i < width
        invariant
            0 <= i <= all@.len(),
            i <= width,
            chars@ == all@.subrange(0, i as int),
        decreases all@.len() - i,
    {
        chars.push(all[i]);
        assert(chars@ =~= all@.subrange(0, i + 1));
        i += 1;
    }
    assert(chars@ =~= status_prefix(status_line@, width as int));
    let ghost prefix = chars@;
    let rendered = string_from_chars(chars.as_slice());
    let rendered_str: &str = rendered.as_str();
    assert(rendered_str@ == prefix);
    let rendered_len = rendered_str.as_bytes().len();
    assert(rendered_len == encode_utf8(prefix).len());
    if rendered_len < width {
        push_spaces(&mut chars, width - rendered_len);
    } else {
        assert(spaces(width - encode_utf8(chars@).len()) =~= Seq::<char>::empty());
        assert(chars@ =~= chars@ + Seq::<char>::empty());
    }
    string_from_chars(chars.as_slice())
}

/// Characters that are all ASCII.
pub open spec fn is_ascii_text(chars: Seq<char>) -> bool {
    forall|i: int| 0 <= i < chars.len() ==> (#[trigger] chars[i]) as u32 <= 0x7f
}

proof fn lemma_ascii_encode_len(chars: Seq<char>)
    requires
        is_ascii_text(chars),
    ensures
        encode_utf8(chars).len() == chars.len(),
    decreases chars.len(),
{
    if chars.len() > 0 {
        let rest = chars.drop_first();
        assert(is_ascii_text(rest)) by {
            assert forall|i: int| 0 <= i < rest.len() implies (#[trigger] rest[i]) as u32 <= 0x7f by {
                assert(rest[i] == chars[i + 1]);
            }
        }
        lemma_ascii_encode_len(rest);
        assert(chars[0] as u32 <= 0x7f);
    }
}

/// An ASCII status line is fitted to exactly the terminal width: its first
/// `terminal_cols` characters, padded with spaces to `terminal_cols` bytes.
pub proof fn lemma_fitted_status_width(status: Seq<char>, terminal_cols: u16)
    requires
        is_ascii_text(status),
    ensures
        fitted_status(status, terminal_cols).len() == terminal_cols,
        encode_utf8(fitted_status(status, terminal_cols)).len() == terminal_cols,
        fitted_status(status, terminal_cols).subrange(
            0,
            status_prefix(status, terminal_cols as int).len() as int,
        ) == status_prefix(status, terminal_cols as int),
{
    let width = terminal_cols as int;
    let prefix = status_prefix(status, width);
    assert(is_ascii_text(prefix)) by {
        assert forall|i: int| 0 <= i < prefix.len() implies (#[trigger] prefix[i]) as u32 <= 0x7f by {
            assert(prefix[i] == status[i]);
        }
    }
    lemma_ascii_encode_len(prefix);
    let pad = spaces(width - encode_utf8(prefix).len());
    assert(is_ascii_text(pad));
    lemma_ascii_encode_len(pad);
    lemma_encode_utf8_concat(prefix, pad);
    let fitted = fitted_status(status, terminal_cols);
    assert(fitted == prefix + pad);
    assert(fitted.subrange(0, prefix.len() as int) =~= prefix);
}

/// The fixed parts of a playback layout on a terminal of `rows` by `cols`:
/// at least two rows and one column, the last row for the status line, and
/// the rows above it (at least one) and all columns for the video.
#[derive(Clone, Copy, Debug, PartialEq, Eq)]
pub struct LayoutBounds {
    pub terminal_rows: u16,
    pub terminal_cols: u16,
    pub status_row: u16,
    pub available_rows: u16,
    pub available_cols: u16,
}

/// Computes the fixed parts of a playback layout.
pub fn layout_bounds(rows: u16, cols: u16) -> (b: LayoutBounds)
    ensures
        b.terminal_rows == (if rows < 2 { 2 } else { rows }),
        b.terminal_cols == (if cols < 1 { 1 } else { cols }),
        b.status_row == b.terminal_rows - 1,
        b.available_rows == b.status_row,
        b.available_cols == b.terminal_cols,
        b.available_rows >= 1,
        b.available_cols >= 1,
{
    let terminal_rows = if rows < 2 {
        2
    } else {
        rows
    };
    let terminal_cols = if cols < 1 {
        1
    } else {
        cols
    };
    let status_row = terminal_rows - 1;
    let available_rows = if status_row < 1 {
        1
    } else {
        status_row
    };
    let available_cols = if terminal_cols < 1 {
        1
    } else {
        terminal_cols
    };
    LayoutBounds { terminal_rows, terminal_cols, status_row, available_rows, available_cols }
}

/// `value` limited to `lo..=hi`.
pub fn clamp_u16(value: u16, lo: u16, hi: u16) -> (r: u16)
    requires
        lo <= hi,
    ensures
        r == (if value < lo { lo } else if value > hi { hi } else { value }),
{
    if value < lo {
        lo
    } else if value > hi {
        hi
    } else {
        value
    }
}

/// The number of cells of a `cols` by `rows` area.
pub fn area(cols: u16, rows: u16) -> (a: u32)
    ensures
        a as int == cols as int * rows as int,
{
    assert(cols as int * rows as int <= 65535 * 65535) by (nonlinear_arith)
        requires
            cols <= 65535,
            rows <= 65535,
    ;
    (cols as u32) * (rows as u32)
}

/// Where the video goes: its size in cells and its offset from the top-left.
#[derive(Clone, Copy, Debug, PartialEq, Eq)]
pub struct VideoPlacement {
    pub render_cols: u16,
    pub render_rows: u16,
    pub offset_y: u16,
    pub offset_x: u16,
}

/// Of a width-limited and a height-limited candidate size, the one with the
/// larger area (the width-limited one on ties), centred in the available area.
pub open spec fn placement_of(
    b: LayoutBounds,
    width_limited: (u16, u16),
    height_limited: (u16, u16),
) -> VideoPlacement {
    let (cols, rows) = if width_limited.0 * width_limited.1 >= height_limited.0 * height_limited.1 {
        width_limited
    } else {
        height_limited
    };
    VideoPlacement {
        render_cols: cols,
        render_rows: rows,
        offset_y: ((b.available_rows - rows) / 2) as u16,
        offset_x: ((b.available_cols - cols) / 2) as u16,
    }
}

/// A candidate `(cols, rows)` size fits the available area.
pub open spec fn candidate_fits(b: LayoutBounds, c: (u16, u16)) -> bool {
    1 <= c.0 <= b.available_cols && 1 <= c.1 <= b.available_rows
}

/// Chooses between the candidate sizes and centres the video.
pub fn place_video(b: LayoutBounds, width_limited: (u16, u16), height_limited: (u16, u16)) -> (p: VideoPlacement)
    requires
        candidate_fits(b, width_limited),
        candidate_fits(b, height_limited),
    ensures
        p == placement_of(b, width_limited, height_limited),
{
    let (render_cols, render_rows) = if area(width_limited.0, width_limited.1) >= area(
        height_limited.0,
        height_limited.1,
    ) {
        width_limited
    } else {
        height_limited
    };
    VideoPlacement {
        render_cols,
        render_rows,
        offset_y: (b.available_rows - render_rows) / 2,
        offset_x: (b.available_cols - render_cols) / 2,
    }
}

/// The chosen video area lies within the rows above the status row and
/// within the terminal's columns, and is centred there.
pub proof fn lemma_placement_fits(b: LayoutBounds, width_limited: (u16, u16), height_limited: (u16, u16))
    requires
        candidate_fits(b, width_limited),
        candidate_fits(b, height_limited),
        b.available_rows == b.status_row,
    ensures
        ({
            let p = placement_of(b, width_limited, height_limited);
            &&& 1 <= p.render_rows && p.offset_y + p.render_rows <= b.status_row
            &&& 1 <= p.render_cols && p.offset_x + p.render_cols <= b.available_cols
            &&& b.available_rows - (p.offset_y + p.render_rows) - p.offset_y <= 1
            &&& b.available_cols - (p.offset_x + p.render_cols) - p.offset_x <= 1
        }),
{
}

} // verus!
