use std::time::{Duration, Instant};

use ascii_video_renderer::ascii::{
    assemble_plain_rows, plain_text_output_bytes, printable_ascii, AnsiGrayPalette, AsciiGrid,
    FpsAverager, GlyphCache, CACHE_LIMIT,
};

#[test]
fn fps_averager_keeps_a_window_of_timestamps() {
    let base = Instant::now();
    let mut fps = FpsAverager::new(8);
    assert!(fps.span().is_none());
    fps.push(base);
    assert!(fps.span().is_none());
    fps.push(base + Duration::from_millis(100));
    fps.push(base + Duration::from_millis(200));
    assert_eq!(fps.len(), 3);
    assert_eq!(fps.span(), Some((base, base + Duration::from_millis(200))));

    let mut small = FpsAverager::new(0);
    for i in 0..5u64 {
        small.push(base + Duration::from_millis(i));
    }
    assert_eq!(small.len(), 2);
    assert_eq!(small.span(), Some((base + Duration::from_millis(3), base + Duration::from_millis(4))));
}

#[test]
fn glyph_cache_remembers_and_starts_over_when_full() {
    let mut cache = GlyphCache::with_capacity(4);
    assert_eq!(cache.get(7), None);
    cache.remember(7, '#');
    assert_eq!(cache.get(7), Some('#'));
    cache.remember(7, '@');
    assert_eq!(cache.get(7), Some('@'));
    for key in 0..CACHE_LIMIT - 1 {
        cache.remember(100 + key, 'x');
    }
    assert_eq!(cache.len(), CACHE_LIMIT);
    cache.remember(1, '.');
    assert_eq!(cache.len(), 1);
    assert_eq!(cache.get(1), Some('.'));
    assert_eq!(cache.get(7), None);
}

#[test]
fn ansi_rows_change_colour_only_when_needed() {
    let palette = AnsiGrayPalette::new();
    assert_eq!(palette.nearest_ansi_gray(0), 16);
    assert_eq!(palette.nearest_ansi_gray(255), 231);
    let cells = vec![('a', 0), ('b', 0), ('c', 255), ('d', 128)];
    let (rows, changes) = palette.assemble_rows(&cells, AsciiGrid { columns: 2, rows: 2 });
    assert_eq!(rows, vec![
        "\x1b[38;5;16mab\x1b[0m".to_string(),
        "\x1b[38;5;231mc\x1b[38;5;244md\x1b[0m".to_string(),
    ]);
    assert_eq!(changes, 3);
    assert!(rows.iter().all(|row| row.ends_with("\x1b[0m")));
    assert_eq!(plain_text_output_bytes(&rows), rows[0].len() + rows[1].len() + 1);
}

#[test]
fn palette_frame_with_sentinel_start() {
    let palette = AnsiGrayPalette::new();
    let mut out = Vec::new();
    // 238 maps to entry 255, which the start colour already names.
    let changes = palette.append_frame(&mut out, &vec![('x', 238), ('y', 0)], 2, 1, false, Some(255));
    assert_eq!(out, "x\x1b[38;5;16my\x1b[0m".as_bytes());
    assert_eq!(changes, 1);
}

#[test]
fn plain_rows_and_sizes() {
    let rows = assemble_plain_rows(&vec!['a', 'b', 'c', 'd', 'e', 'f'], AsciiGrid { columns: 3, rows: 2 });
    assert_eq!(rows, vec!["abc".to_string(), "def".to_string()]);
    assert_eq!(plain_text_output_bytes(&rows), 7);
    assert_eq!(plain_text_output_bytes(&Vec::new()), 0);
    assert_eq!(plain_text_output_bytes(&vec!["é".to_string()]), 2);
    let chars = printable_ascii();
    assert_eq!(chars.len(), 95);
    assert_eq!(chars[0], ' ');
    assert_eq!(chars[94], '~');
}
