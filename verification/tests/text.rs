use ascii_video_renderer::input::{
    saturating_mul_usize, saturating_u32, validate_cell_dimensions, validate_grayscale_input,
    validate_rgb_input, RenderError,
};
use ascii_video_renderer::text::{chars_of, push_char, string_from_chars};

#[test]
fn utf8_encoding_of_single_characters() {
    let mut out = Vec::new();
    for ch in ['a', 'é', '█', '\u{1fb00}'] {
        push_char(&mut out, ch);
    }
    assert_eq!(out, "aé█\u{1fb00}".as_bytes());
    assert_eq!(string_from_chars(&chars_of("héllo ▒")), "héllo ▒");
}

#[test]
fn input_validation_order() {
    assert_eq!(validate_cell_dimensions(1, 1), Ok(()));
    assert_eq!(validate_cell_dimensions(0, 1), Err(RenderError::ZeroCellDimensions));
    assert_eq!(validate_grayscale_input(&[0; 6], 2, 3, 1, 1), Ok(()));
    assert_eq!(
        validate_grayscale_input(&[0; 5], 2, 3, 0, 0),
        Err(RenderError::GrayscaleLengthMismatch { expected: 6, received: 5 })
    );
    assert_eq!(validate_grayscale_input(&[0; 6], 2, 3, 0, 1), Err(RenderError::EmptyGrid));
    assert_eq!(validate_grayscale_input(&[], usize::MAX, 2, 1, 1), Err(RenderError::PixelCountOverflow));
    assert_eq!(validate_rgb_input(&[0; 18], 2, 3, 1, 1), Ok(()));
    assert_eq!(
        validate_rgb_input(&[0; 6], 2, 3, 1, 1),
        Err(RenderError::RgbLengthMismatch { expected: 18, received: 6 })
    );
    assert_eq!(validate_rgb_input(&[], usize::MAX / 2, 2, 1, 1), Err(RenderError::PixelCountOverflow));
}

#[test]
fn saturating_helpers() {
    assert_eq!(saturating_mul_usize(usize::MAX, 2), usize::MAX);
    assert_eq!(saturating_mul_usize(3, 4), 12);
    assert_eq!(saturating_u32(usize::MAX), u32::MAX);
    assert_eq!(saturating_u32(5), 5);
}
