use ascii_video_renderer::blocks::{
    average_u8, luma601_u8, sextant_char, shade_char, AxisSpan, UnicodeBlocksRenderer,
    SEXTANT_FULL_MASK, SEXTANT_LEFT_HALF_MASK, SEXTANT_RIGHT_HALF_MASK,
};
use ascii_video_renderer::engine::split_output_lines;
use ascii_video_renderer::input::RenderError;

fn span(start: usize, end: usize, mid_start: usize, high_start: usize) -> AxisSpan {
    AxisSpan { start, end, mid_start, high_start, narrow: false }
}

#[test]
fn sextant_mapping_uses_expected_unicode_positions() {
    assert_eq!(sextant_char(0), ' ');
    assert_eq!(sextant_char(0b00_0001), '\u{1fb00}');
    assert_eq!(sextant_char(0b00_0011), '\u{1fb02}');
    assert_eq!(sextant_char(SEXTANT_LEFT_HALF_MASK), '▌');
    assert_eq!(sextant_char(SEXTANT_RIGHT_HALF_MASK), '▐');
    assert_eq!(sextant_char(SEXTANT_FULL_MASK), '█');
}

#[test]
fn sextant_codes_skip_the_half_and_full_blocks() {
    assert_eq!(sextant_char(20), '\u{1fb13}');
    assert_eq!(sextant_char(22), '\u{1fb14}');
    assert_eq!(sextant_char(41), '\u{1fb27}');
    assert_eq!(sextant_char(43), '\u{1fb28}');
    assert_eq!(sextant_char(62), '\u{1fb3b}');
}

#[test]
fn shade_levels_round_to_nearest() {
    assert_eq!(shade_char(0), ' ');
    assert_eq!(shade_char(31), ' ');
    assert_eq!(shade_char(32), '░');
    assert_eq!(shade_char(128), '▒');
    assert_eq!(shade_char(160), '▓');
    assert_eq!(shade_char(255), '█');
}

#[test]
fn averages_and_luma() {
    assert_eq!(average_u8(0, 0), 0);
    assert_eq!(average_u8(3, 2), 2);
    assert_eq!(average_u8(5, 4), 1);
    assert_eq!(average_u8(1000, 2), 255);
    assert_eq!(luma601_u8(255, 255, 255), 255);
    assert_eq!(luma601_u8(255, 0, 0), 76);
    assert_eq!(luma601_u8(0, 255, 0), 150);
    assert_eq!(luma601_u8(0, 0, 255), 29);
}

#[test]
fn sextant_renderer_respects_bit_order() {
    let mut renderer =
        UnicodeBlocksRenderer::new(8, 16).expect("unicode-block renderer should initialize");
    let pixels = vec![
        255, 0, //
        0, 0, //
        0, 0, //
    ];
    renderer
        .render_sextant_luma(&pixels, 2, 3, 1, 1, &[span(0, 2, 1, 2)], &[span(0, 3, 1, 2)])
        .expect("sextant grayscale render should succeed");
    assert!(renderer.output_text().contains('\u{1fb00}'));
}

#[test]
fn sextant_renderer_rgb_emits_truecolor_sequences() {
    let mut renderer =
        UnicodeBlocksRenderer::new(8, 16).expect("unicode-block renderer should initialize");
    let pixels = vec![
        255, 0, 0, 0, 255, 0, //
        0, 0, 255, 0, 0, 0, //
        0, 0, 0, 255, 255, 255, //
    ];
    renderer
        .render_sextant_rgb(&pixels, 2, 3, 1, 1, &[span(0, 2, 1, 2)], &[span(0, 3, 1, 2)])
        .expect("sextant rgb render should succeed");
    let output = renderer.output_text();
    assert!(output.contains("\x1b[38;2;"));
    assert!(output.ends_with("\x1b[0m"));
}

#[test]
fn shade_renderer_grayscale_emits_shade_blocks() {
    let mut renderer =
        UnicodeBlocksRenderer::new(8, 16).expect("unicode-block renderer should initialize");
    let pixels = vec![255u8; 4];
    renderer
        .render_shade_blocks_luma(&pixels, 2, 2, 1, 1, &[span(0, 2, 1, 2)], &[span(0, 2, 1, 1)])
        .expect("shade grayscale render should succeed");
    let output = renderer.output_text();
    assert!(output.contains('█'));
    assert!(output.contains("\x1b[38;5;"));
}

#[test]
fn shade_renderer_rgb_emits_truecolor_sequences() {
    let mut renderer =
        UnicodeBlocksRenderer::new(8, 16).expect("unicode-block renderer should initialize");
    let pixels = vec![
        255, 0, 0, 255, 0, 0, //
        255, 0, 0, 255, 0, 0, //
    ];
    renderer
        .render_shade_blocks_rgb(&pixels, 2, 2, 1, 1, &[span(0, 2, 1, 2)], &[span(0, 2, 1, 1)])
        .expect("shade rgb render should succeed");
    let output = renderer.output_text();
    assert!(output.contains("\x1b[38;2;"));
    assert!(output.chars().any(|ch| ['░', '▒', '▓', '█'].contains(&ch)));
    assert!(output.ends_with("\x1b[0m"));
}

#[test]
fn sextant_frame_exact_bytes_and_stats() {
    let mut renderer = UnicodeBlocksRenderer::new(8, 16).unwrap();
    // Two cells side by side, each 1x3 pixels: the left all white, the right all black.
    let pixels = vec![255, 0, 255, 0, 255, 0];
    let columns = [span(0, 1, 0, 1), span(1, 2, 1, 2)];
    let rows = [span(0, 3, 1, 2)];
    renderer.render_sextant_luma(&pixels, 2, 3, 2, 1, &columns, &rows).unwrap();
    // Left cell: every pixel is in the right half of its own span, so the right-half block.
    assert_eq!(renderer.output_text(), "\x1b[38;5;231m▐ \x1b[0m");
    let stats = renderer.stats();
    assert_eq!(stats.sgr_change_count, 1);
    assert_eq!(stats.sample_count, 12);
    assert_eq!(stats.lookup_count, 2);
    assert_eq!(stats.output_bytes as usize, renderer.output_bytes().len());
    assert_eq!(stats.cache_hits, 0);
}

#[test]
fn shade_frame_rows_are_joined_by_newlines() {
    let mut renderer = UnicodeBlocksRenderer::new(8, 16).unwrap();
    let pixels = vec![128, 128];
    let columns = [span(0, 1, 1, 1)];
    let rows = [span(0, 1, 1, 1), span(1, 2, 2, 2)];
    renderer.render_shade_blocks_luma(&pixels, 1, 2, 1, 2, &columns, &rows).unwrap();
    assert_eq!(renderer.output_text(), "\x1b[38;5;244m▒\x1b[0m\n\x1b[38;5;244m▒\x1b[0m");
    assert_eq!(renderer.stats().sgr_change_count, 2);
    assert_eq!(renderer.stats().sample_count, 2);
}

#[test]
fn truecolor_escape_is_not_repeated_for_same_colour() {
    let mut renderer = UnicodeBlocksRenderer::new(8, 16).unwrap();
    let pixels = vec![255, 0, 0, 255, 0, 0];
    let columns = [span(0, 1, 1, 1), span(1, 2, 2, 2)];
    let rows = [span(0, 1, 1, 1)];
    renderer.render_shade_blocks_rgb(&pixels, 2, 1, 2, 1, &columns, &rows).unwrap();
    assert_eq!(renderer.output_text(), "\x1b[38;2;255;0;0m░░\x1b[0m");
    assert_eq!(renderer.stats().sgr_change_count, 1);
}

#[test]
fn narrow_cells_are_blank_for_sextants_but_sampled_for_shades() {
    let mut renderer = UnicodeBlocksRenderer::new(8, 16).unwrap();
    let pixels = vec![255];
    let narrow = AxisSpan { start: 0, end: 1, mid_start: 0, high_start: 0, narrow: true };
    renderer.render_sextant_luma(&pixels, 1, 1, 1, 1, &[narrow], &[span(0, 1, 1, 1)]).unwrap();
    assert_eq!(renderer.output_text(), " \x1b[0m");
    renderer.render_shade_blocks_luma(&pixels, 1, 1, 1, 1, &[narrow], &[span(0, 1, 1, 1)]).unwrap();
    assert_eq!(renderer.output_text(), "\x1b[38;5;231m█\x1b[0m");
}

#[test]
fn input_errors_leave_the_renderer_unchanged() {
    let mut renderer = UnicodeBlocksRenderer::new(8, 16).unwrap();
    let s = [span(0, 1, 1, 1)];
    renderer.render_shade_blocks_luma(&[7], 1, 1, 1, 1, &s, &s).unwrap();
    let before = renderer.output_bytes().to_vec();
    assert_eq!(
        renderer.render_sextant_luma(&[1, 2, 3], 2, 2, 1, 1, &s, &s),
        Err(RenderError::GrayscaleLengthMismatch { expected: 4, received: 3 })
    );
    assert_eq!(
        renderer.render_sextant_rgb(&[1, 2, 3], 2, 2, 1, 1, &s, &s),
        Err(RenderError::RgbLengthMismatch { expected: 12, received: 3 })
    );
    assert_eq!(
        renderer.render_shade_blocks_rgb(&[1, 2, 3], usize::MAX, 2, 1, 1, &s, &s),
        Err(RenderError::PixelCountOverflow)
    );
    assert_eq!(renderer.render_shade_blocks_luma(&[1], 1, 1, 0, 0, &[], &[]), Err(RenderError::EmptyGrid));
    assert_eq!(renderer.output_bytes(), &before[..]);
    assert_eq!(UnicodeBlocksRenderer::new(0, 16).err(), Some(RenderError::ZeroCellDimensions));
    assert_eq!(renderer.reconfigure(8, 0), Err(RenderError::ZeroCellDimensions));
    assert_eq!(renderer.cell_height(), 16);
    renderer.reconfigure(4, 9).unwrap();
    assert_eq!((renderer.cell_width(), renderer.cell_height()), (4, 9));
}

#[test]
fn rendered_frame_splits_into_one_line_per_grid_row() {
    let mut renderer = UnicodeBlocksRenderer::new(8, 16).unwrap();
    let pixels = vec![0, 255, 128, 64, 32, 16];
    let columns = [span(0, 1, 1, 1), span(1, 2, 2, 2)];
    let rows = [span(0, 1, 1, 1), span(1, 2, 2, 2), span(2, 3, 3, 3)];
    renderer.render_shade_blocks_luma(&pixels, 2, 3, 2, 3, &columns, &rows).unwrap();
    let lines = split_output_lines(&renderer.output_text());
    assert_eq!(lines.len(), 3);
    for line in &lines {
        assert!(line.ends_with("\x1b[0m"));
        assert!(!line.contains('\n'));
    }
}

#[test]
fn half_blocks_draw_upper_colour_over_lower_colour() {
    let mut renderer = UnicodeBlocksRenderer::new(8, 16).unwrap();
    // One column, two pixel rows: red above blue.
    let pixels = vec![255, 0, 0, 0, 0, 255];
    let columns = [span(0, 1, 1, 1)];
    let rows = [span(0, 2, 1, 2)];
    renderer.render_half_blocks_rgb(&pixels, 1, 2, 1, 1, &columns, &rows).unwrap();
    assert_eq!(renderer.output_text(), "\x1b[38;2;255;0;0m\x1b[48;2;0;0;255m\u{2580}\x1b[0m");
    assert_eq!(renderer.stats().sgr_change_count, 2);
    assert_eq!(renderer.stats().sample_count, 2);
}

#[test]
fn half_block_escapes_are_not_repeated_and_rows_split() {
    let mut renderer = UnicodeBlocksRenderer::new(8, 16).unwrap();
    let pixels = vec![9; 2 * 4 * 3];
    let columns = [span(0, 1, 1, 1), span(1, 2, 2, 2)];
    let rows = [span(0, 2, 1, 2), span(2, 4, 3, 4)];
    renderer.render_half_blocks_rgb(&pixels, 2, 4, 2, 2, &columns, &rows).unwrap();
    let row = "\x1b[38;2;9;9;9m\x1b[48;2;9;9;9m\u{2580}\u{2580}\x1b[0m";
    assert_eq!(renderer.output_text(), format!("{row}\n{row}"));
    assert_eq!(split_output_lines(&renderer.output_text()).len(), 2);
    assert_eq!(renderer.stats().sgr_change_count, 4);
    let err = renderer.render_half_blocks_rgb(&pixels[1..], 2, 4, 2, 2, &columns, &rows);
    assert_eq!(err, Err(RenderError::RgbLengthMismatch { expected: 24, received: 23 }));
}
