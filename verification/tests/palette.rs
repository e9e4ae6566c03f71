use ascii_video_renderer::palette::{
    build_fg_sgr, build_gray_lut, build_palette, push_decimal_u8, push_truecolor_bg, push_truecolor_fg,
};

#[test]
fn palette_has_system_cube_and_gray_ramp() {
    let palette = build_palette();
    assert_eq!(palette.len(), 256);
    assert_eq!(palette[0], [0, 0, 0]);
    assert_eq!(palette[7], [192, 192, 192]);
    assert_eq!(palette[15], [255, 255, 255]);
    assert_eq!(palette[16], [0, 0, 0]);
    assert_eq!(palette[17], [0, 0, 95]);
    assert_eq!(palette[22], [0, 95, 0]);
    assert_eq!(palette[52], [95, 0, 0]);
    assert_eq!(palette[231], [255, 255, 255]);
    assert_eq!(palette[232], [8, 8, 8]);
    assert_eq!(palette[255], [238, 238, 238]);
}

#[test]
fn gray_lut_picks_nearest_entry_first_on_ties() {
    let lut = build_gray_lut();
    // Black is both cube entry 16 and system 0; only 16.. count.
    assert_eq!(lut[0], 16);
    assert_eq!(lut[8], 232);
    assert_eq!(lut[128], 244);
    assert_eq!(lut[255], 231);
    // 95 is exact in the cube (entry 59) and beats the ramp.
    assert_eq!(lut[95], 59);
    for g in 0..256usize {
        assert!(lut[g] >= 16);
    }
}

#[test]
fn decimal_and_sgr_bytes() {
    let mut buf = Vec::new();
    push_decimal_u8(&mut buf, 0);
    push_decimal_u8(&mut buf, 7);
    push_decimal_u8(&mut buf, 42);
    push_decimal_u8(&mut buf, 255);
    assert_eq!(buf, b"0742255");
    let mut fg = Vec::new();
    push_truecolor_fg(&mut fg, 1, 22, 255);
    assert_eq!(fg, b"\x1b[38;2;1;22;255m");
    let mut bg = Vec::new();
    push_truecolor_bg(&mut bg, 0, 100, 9);
    assert_eq!(bg, b"\x1b[48;2;0;100;9m");
    let table = build_fg_sgr();
    assert_eq!(table.len(), 256);
    assert_eq!(table[0], b"\x1b[38;5;0m");
    assert_eq!(table[16], b"\x1b[38;5;16m");
    assert_eq!(table[255], b"\x1b[38;5;255m");
}
