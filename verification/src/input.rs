//! Validation of renderer inputs, the errors renderers report, and the
//! saturating conversions their statistics use.

use vstd::prelude::*;

verus! {

/// Why a renderer refused its input.
#[derive(Clone, Copy, Debug, PartialEq, Eq)]
pub enum RenderError {
    /// A cell width or height of zero.
    ZeroCellDimensions,
    /// `width * height` (times 3 for RGB24) does not fit in `usize`.
    PixelCountOverflow,
    /// A grey frame whose byte count is not `width * height`.
    GrayscaleLengthMismatch { expected: usize, received: usize },
    /// An RGB24 frame whose byte count is not `width * height * 3`.
    RgbLengthMismatch { expected: usize, received: usize },
    /// An output grid with no columns or no rows.
    EmptyGrid,
}

/// The error for cell dimensions, if any.
pub open spec fn cell_dimensions_error(cell_width: usize, cell_height: usize) -> Option<RenderError> {
    if cell_width == 0 || cell_height == 0 {
        Some(RenderError::ZeroCellDimensions)
    } else {
        None
    }
}

/// The error for a grey frame and output grid, if any, in the order checked.
pub open spec fn grayscale_input_error(
    len: int,
    width: usize,
    height: usize,
    columns: usize,
    rows: usize,
) -> Option<RenderError> {
    if width * height > usize::MAX {
        Some(RenderError::PixelCountOverflow)
    } else if len != width * height {
        Some(RenderError::GrayscaleLengthMismatch { expected: (width * height) as usize, received: len as usize })
    } else if columns == 0 || rows == 0 {
        Some(RenderError::EmptyGrid)
    } else {
        None
    }
}

/// The error for an RGB24 frame and output grid, if any, in the order checked.
pub open spec fn rgb_input_error(
    len: int,
    width: usize,
    height: usize,
    columns: usize,
    rows: usize,
) -> Option<RenderError> {
    if width * height > usize::MAX || width * height * 3 > usize::MAX {
        Some(RenderError::PixelCountOverflow)
    } else if len != width * height * 3 {
        Some(RenderError::RgbLengthMismatch { expected: (width * height * 3) as usize, received: len as usize })
    } else if columns == 0 || rows == 0 {
        Some(RenderError::EmptyGrid)
    } else {
        None
    }
}

/// Checks that both cell dimensions are non-zero.
pub fn validate_cell_dimensions(cell_width: usize, cell_height: usize) -> (r: Result<(), RenderError>)
    ensures
        r is Err <==> cell_dimensions_error(cell_width, cell_height) is Some,
        r matches Err(e) ==> cell_dimensions_error(cell_width, cell_height) == Some(e),
{
    if cell_width == 0 || cell_height == 0 {
        return Err(RenderError::ZeroCellDimensions);
    }
    Ok(())
}

/// Checks a grey frame's length and the output grid.
pub fn validate_grayscale_input(
    pixels: &[u8],
    width: usize,
    height: usize,
    columns: usize,
    rows: usize,
) -> (r: Result<(), RenderError>)
    ensures
        r is Err <==> grayscale_input_error(pixels@.len() as int, width, height, columns, rows) is Some,
        r matches Err(e) ==> grayscale_input_error(pixels@.len() as int, width, height, columns, rows)
            == Some(e),
{
    let expected_pixels = match width.checked_mul(height) {
        Some(value) => value,
        None => return Err(RenderError::PixelCountOverflow),
    };
    if pixels.len() != expected_pixels {
        return Err(RenderError::GrayscaleLengthMismatch { expected: expected_pixels, received: pixels.len() });
    }
    if columns == 0 || rows == 0 {
        return Err(RenderError::EmptyGrid);
    }
    Ok(())
}

/// Checks an RGB24 frame's length and the output grid.
pub fn validate_rgb_input(
    pixels: &[u8],
    width: usize,
    height: usize,
    columns: usize,
    rows: usize,
) -> (r: Result<(), RenderError>)
    ensures
        r is Err <==> rgb_input_error(pixels@.len() as int, width, height, columns, rows) is Some,
        r matches Err(e) ==> rgb_input_error(pixels@.len() as int, width, height, columns, rows) == Some(e),
{
    let expected_pixels = match width.checked_mul(height) {
        Some(value) => match value.checked_mul(3) {
            Some(bytes) => bytes,
            None => return Err(RenderError::PixelCountOverflow),
        },
        None => return Err(RenderError::PixelCountOverflow),
    };
    if pixels.len() != expected_pixels {
        return Err(RenderError::RgbLengthMismatch { expected: expected_pixels, received: pixels.len() });
    }
    if columns == 0 || rows == 0 {
        return Err(RenderError::EmptyGrid);
    }
    Ok(())
}

/// `n` as a `usize`, saturating.
pub open spec fn saturate_usize(n: int) -> usize {
    if n > usize::MAX {
        usize::MAX
    } else {
        n as usize
    }
}

/// `a * b`, saturating at `usize::MAX`.
pub fn saturating_mul_usize(a: usize, b: usize) -> (r: usize)
    ensures
        r == saturate_usize(a * b),
{
    match a.checked_mul(b) {
        Some(value) => value,
        None => usize::MAX,
    }
}

/// `value` as a `u32`, saturating at `u32::MAX`.
pub fn saturating_u32(value: usize) -> (r: u32)
    ensures
        r as int == (if value > u32::MAX { u32::MAX as int } else { value as int }),
{
    if value > u32::MAX as usize {
        u32::MAX
    } else {
        value as u32
    }
}

} // verus!
