use ascii_video_renderer::terminal::{
    area, clamp_u16, classify_key_event, compose_frame_row, fit_status_line, layout_bounds,
    place_video, KeyCode, KeyEventKind, KeyModifiers, LayoutBounds, TerminalEvent, VideoPlacement,
};

const NONE: KeyModifiers = KeyModifiers { shift: false, control: false, alt: false };
const CONTROL: KeyModifiers = KeyModifiers { shift: false, control: true, alt: false };
const SHIFT: KeyModifiers = KeyModifiers { shift: true, control: false, alt: false };
const CONTROL_SHIFT: KeyModifiers = KeyModifiers { shift: true, control: true, alt: false };

#[test]
fn compose_frame_row_preserves_ansi_sequences() {
    let content = "\x1b[38;5;240mab\x1b[0m";
    let row = compose_frame_row(content, 2, 2, 6);
    assert_eq!(row, format!("  {content}  "));
}

#[test]
fn exit_key_event_matches_ctrl_c_press() {
    assert_eq!(
        classify_key_event(KeyCode::Char('c'), CONTROL, KeyEventKind::Press),
        TerminalEvent::Exit
    );
    assert_eq!(
        classify_key_event(KeyCode::Char('C'), CONTROL_SHIFT, KeyEventKind::Press),
        TerminalEvent::Exit
    );
    assert_eq!(
        classify_key_event(KeyCode::Char('c'), NONE, KeyEventKind::Press),
        TerminalEvent::Idle
    );
    assert_eq!(
        classify_key_event(KeyCode::Char('c'), CONTROL, KeyEventKind::Release),
        TerminalEvent::Idle
    );
}

#[test]
fn toggle_renderer_key_event_matches_r_press() {
    assert_eq!(
        classify_key_event(KeyCode::Char('r'), NONE, KeyEventKind::Press),
        TerminalEvent::ToggleRenderer
    );
    assert_eq!(
        classify_key_event(KeyCode::Char('R'), SHIFT, KeyEventKind::Press),
        TerminalEvent::ToggleRenderer
    );
    assert_eq!(
        classify_key_event(KeyCode::Char('r'), CONTROL, KeyEventKind::Press),
        TerminalEvent::Idle
    );
}

#[test]
fn alt_r_and_other_keys_mean_nothing() {
    let alt = KeyModifiers { shift: false, control: false, alt: true };
    assert_eq!(classify_key_event(KeyCode::Char('r'), alt, KeyEventKind::Press), TerminalEvent::Idle);
    assert_eq!(classify_key_event(KeyCode::Other, CONTROL, KeyEventKind::Press), TerminalEvent::Idle);
    assert_eq!(
        classify_key_event(KeyCode::Char('r'), NONE, KeyEventKind::Repeat),
        TerminalEvent::ToggleRenderer
    );
}

#[test]
fn compose_frame_row_pads_to_terminal_width() {
    assert_eq!(compose_frame_row("abc", 1, 3, 8), " abc    ");
    // The offset alone exceeds the width: no right padding.
    assert_eq!(compose_frame_row("x", 5, 2, 3), "     x");
    assert_eq!(compose_frame_row("", 0, 0, 4), "    ");
}

#[test]
fn status_line_is_cut_and_padded_to_width() {
    assert_eq!(fit_status_line("hello", 8), "hello   ");
    assert_eq!(fit_status_line("hello world", 5), "hello");
    assert_eq!(fit_status_line("", 3), "   ");
    // Padding counts bytes: "é" is two bytes, so one space fewer.
    assert_eq!(fit_status_line("é", 3), "é ");
}

#[test]
fn layout_bounds_reserve_the_status_row() {
    let b = layout_bounds(40, 120);
    assert_eq!(
        b,
        LayoutBounds { terminal_rows: 40, terminal_cols: 120, status_row: 39, available_rows: 39, available_cols: 120 }
    );
    let tiny = layout_bounds(0, 0);
    assert_eq!(tiny.terminal_rows, 2);
    assert_eq!(tiny.terminal_cols, 1);
    assert_eq!(tiny.status_row, 1);
    assert_eq!(tiny.available_rows, 1);
}

#[test]
fn placement_prefers_larger_area_and_centres() {
    let b = layout_bounds(30, 120);
    let p = place_video(b, (76, 29), (77, 29));
    assert_eq!(p, VideoPlacement { render_cols: 77, render_rows: 29, offset_y: 0, offset_x: 21 });
    // Equal areas keep the width-limited candidate.
    let q = place_video(b, (10, 20), (20, 10));
    assert_eq!(q, VideoPlacement { render_cols: 10, render_rows: 20, offset_y: 4, offset_x: 55 });
}

#[test]
fn clamp_and_area() {
    assert_eq!(clamp_u16(0, 1, 10), 1);
    assert_eq!(clamp_u16(11, 1, 10), 10);
    assert_eq!(clamp_u16(5, 1, 10), 5);
    assert_eq!(area(65535, 65535), 4_294_836_225);
    assert_eq!(area(120, 39), 4680);
}
