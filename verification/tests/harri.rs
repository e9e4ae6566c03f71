use ascii_video_renderer::harri::{clamp_cell_height, glyph_bitmap, gray_as_rgb, luma_plane, ShapeCache};
use font8x8::{UnicodeFonts, BASIC_FONTS};

#[test]
fn cell_height_is_clamped() {
    assert_eq!(clamp_cell_height(0), 8);
    assert_eq!(clamp_cell_height(16), 16);
    assert_eq!(clamp_cell_height(24), 24);
    assert_eq!(clamp_cell_height(100), 32);
}

#[test]
fn glyph_bitmap_unpacks_font_rows_lsb_first() {
    let rows = BASIC_FONTS.get('A').unwrap();
    let bits = glyph_bitmap('A');
    assert_eq!(bits.len(), 64);
    for y in 0..8 {
        for x in 0..8 {
            assert_eq!(bits[y * 8 + x], (rows[y] >> x) & 1 == 1);
        }
    }
    assert!(bits.iter().any(|b| *b));
    assert_eq!(glyph_bitmap(' '), vec![false; 64]);
    // Characters outside Basic Latin are drawn as '?'.
    assert_eq!(glyph_bitmap('é'), glyph_bitmap('?'));
}

#[test]
fn shape_cache_reads_back_writes() {
    let mut cache = ShapeCache::new();
    assert_eq!(cache.get(3), None);
    cache.insert(3, 40);
    cache.insert(9, 2);
    assert_eq!(cache.get(3), Some(40));
    assert_eq!(cache.get(9), Some(2));
    cache.clear();
    assert_eq!(cache.get(3), None);
}

#[test]
fn luma_plane_weights_channels_by_bt601() {
    // White, pure red, pure green, pure blue, then a trailing partial pixel.
    let rgb = [255, 255, 255, 255, 0, 0, 0, 255, 0, 0, 0, 255, 7, 7];
    assert_eq!(luma_plane(&rgb), vec![255, 76, 150, 29]);
    assert_eq!(luma_plane(&[]), Vec::<u8>::new());
}

#[test]
fn grey_frames_become_rgb_with_equal_channels() {
    assert_eq!(gray_as_rgb(&[0, 7, 255]), vec![0, 0, 0, 7, 7, 7, 255, 255, 255]);
    assert_eq!(gray_as_rgb(&[]), Vec::<u8>::new());
}
