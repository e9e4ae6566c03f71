//! The context-shape renderer's verified parts: its cell-size rules, the
//! embedded 8x8 bitmap font, and its glyph lookup cache.

use vstd::prelude::*;
use std::collections::HashMap;
use font8x8::{UnicodeFonts, BASIC_FONTS};
use crate::blocks::{luma601, luma601_u8};

verus! {

broadcast use vstd::std_specs::hash::group_hash_axioms;

pub const DEFAULT_HARRI_CELL_WIDTH: usize = 8;
pub const MIN_HARRI_CELL_HEIGHT: usize = 8;
pub const MAX_HARRI_CELL_HEIGHT: usize = 32;

/// A cell height limited to `MIN_HARRI_CELL_HEIGHT..=MAX_HARRI_CELL_HEIGHT`.
pub fn clamp_cell_height(cell_height: usize) -> (h: usize)
    ensures
        h == (if cell_height < MIN_HARRI_CELL_HEIGHT {
            MIN_HARRI_CELL_HEIGHT
        } else if cell_height > MAX_HARRI_CELL_HEIGHT {
            MAX_HARRI_CELL_HEIGHT
        } else {
            cell_height
        }),
{
    if cell_height < MIN_HARRI_CELL_HEIGHT {
        MIN_HARRI_CELL_HEIGHT
    } else if cell_height > MAX_HARRI_CELL_HEIGHT {
        MAX_HARRI_CELL_HEIGHT
    } else {
        cell_height
    }
}

/// The eight bitmap rows font8x8 holds for a Basic Latin character.
pub uninterp spec fn basic_font_rows(c: char) -> Seq<u8>;

/// `BASIC_FONTS.get` of font8x8. Its source holds one entry for each of the
/// 128 Basic Latin characters U+0000..=U+007F and finds the key by binary
/// search, so the result is `Some` exactly for those characters; the rows
/// themselves are left to the name `basic_font_rows`.
#[verifier::external_body]
fn basic_font_glyph(c: char) -> (r: Option<[u8; 8]>)
    ensures
        r is Some <==> (c as u32) < 0x80,
        r matches Some(rows) ==> rows@ == basic_font_rows(c),
{
    BASIC_FONTS.get(c)
}

/// The character whose bitmap is drawn for `c`: itself when the font has
/// it, otherwise `?`.
pub open spec fn font_char(c: char) -> char {
    if (c as u32) < 0x80 {
        c
    } else {
        '?'
    }
}

/// Whether pixel `(x, y)` of an 8x8 bitmap is set: bit `x` of row `y`.
pub open spec fn bitmap_bit(rows: Seq<u8>, x: int, y: int) -> bool {
    (rows[y] >> (x as u8)) & 1u8 != 0u8
}

/// The 8x8 bitmap of `c`, row-major: pixel `(x, y)` at index `8 * y + x`.
pub fn glyph_bitmap(c: char) -> (pixels: Vec<bool>)
    ensures
        pixels@.len() == 64,
        forall|x: int, y: int|
            0 <= x < 8 && 0 <= y < 8 ==> #[trigger] pixels@[8 * y + x] == bitmap_bit(
                basic_font_rows(font_char(c)),
                x,
                y,
            ),
{
    let rows = match basic_font_glyph(c) {
        Some(rows) => rows,
        None => match basic_font_glyph('?') {
            Some(rows) => rows,
            None => [0u8; 8],
        },
    };
    let ghost font_rows = basic_font_rows(font_char(c));
    assert(rows@ == font_rows);
    let mut pixels: Vec<bool> = Vec::with_capacity(64);
    let mut y: usize = 0;
    while y < 8
        invariant
            0 <= y <= 8,
            rows@ == font_rows,
            pixels@.len() == 8 * y,
            forall|px: int, py: int|
                0 <= px < 8 && 0 <= py < y ==> #[trigger] pixels@[8 * py + px] == bitmap_bit(font_rows, px, py),
        decreases 8 - y,
    {
        let row_bits = rows[y];
        let mut x: usize = 0;
        while x < 8
            invariant
                0 <= x <= 8,
                0 <= y < 8,
                rows@ == font_rows,
                row_bits == font_rows[y as int],
                pixels@.len() == 8 * y + x,
                forall|px: int, py: int|
                    0 <= px < 8 && 0 <= py < y ==> #[trigger] pixels@[8 * py + px] == bitmap_bit(font_rows, px, py),
                forall|px: int| 0 <= px < x ==> #[trigger] pixels@[8 * y + px] == bitmap_bit(font_rows, px, y as int),
            decreases 8 - x,
        {
            let is_set = ((row_bits >> x as u8) & 1) != 0;
            pixels.push(is_set);
            x += 1;
        }
        y += 1;
    }
    pixels
}

/// The BT.601 luma of each whole RGB24 pixel of `rgb`, in order; a trailing
/// partial pixel is ignored.
pub fn luma_plane(rgb: &[u8]) -> (luma: Vec<u8>)
    ensures
        luma@.len() == rgb@.len() / 3,
        forall|i: int|
            0 <= i < luma@.len() ==> #[trigger] luma@[i] as int == luma601(
                rgb@[3 * i] as int,
                rgb@[3 * i + 1] as int,
                rgb@[3 * i + 2] as int,
            ),
{
    let n = rgb.len();
    let count = n / 3;
    let mut luma: Vec<u8> = Vec::with_capacity(count);
    let mut i: usize = 0;
    while i < count
        invariant
            0 <= i <= count,
            n == rgb@.len(),
            count == n / 3,
            luma@.len() == i,
            forall|k: int|
                0 <= k < i ==> #[trigger] luma@[k] as int == luma601(
                    rgb@[3 * k] as int,
                    rgb@[3 * k + 1] as int,
                    rgb@[3 * k + 2] as int,
                ),
        decreases count - i,
    {
        assert(3 * i + 2 < n) by (nonlinear_arith)
            requires
                i < count,
                count == n / 3,
        ;
        let base = 3 * i;
        luma.push(luma601_u8(rgb[base], rgb[base + 1], rgb[base + 2]));
        i += 1;
    }
    luma
}

/// A grey frame as RGB24: each grey byte repeated for red, green and blue.
pub fn gray_as_rgb(gray: &[u8]) -> (rgb: Vec<u8>)
    requires
        gray@.len() * 3 <= usize::MAX,
    ensures
        rgb@.len() == gray@.len() * 3,
        forall|i: int, c: int| 0 <= i < gray@.len() && 0 <= c < 3 ==> #[trigger] rgb@[3 * i + c] == gray@[i],
{
    let n = gray.len();
    let mut rgb: Vec<u8> = Vec::with_capacity(n * 3);
    let mut i: usize = 0;
    while i < n
        invariant
            0 <= i <= n,
            n == gray@.len(),
            n * 3 <= usize::MAX,
            rgb@.len() == 3 * i,
            forall|k: int, c: int| 0 <= k < i && 0 <= c < 3 ==> #[trigger] rgb@[3 * k + c] == gray@[k],
        decreases n - i,
    {
        let v = gray[i];
        rgb.push(v);
        rgb.push(v);
        rgb.push(v);
        assert forall|k: int, c: int| 0 <= k < i + 1 && 0 <= c < 3 implies #[trigger] rgb@[3 * k + c] == gray@[k] by {
            if k < i {
                assert(3 * k + c < 3 * i);
            }
        }
        i += 1;
    }
    rgb
}

/// Remembers the glyph index chosen for each quantised shape key.
pub struct ShapeCache {
    entries: HashMap<u32, usize>,
}

impl ShapeCache {
    /// The remembered glyph indices, by key.
    pub closed spec fn spec_entries(&self) -> Map<u32, usize> {
        self.entries@
    }

    /// An empty cache.
    pub fn new() -> (cache: Self)
        ensures
            cache.spec_entries() == Map::<u32, usize>::empty(),
    {
        ShapeCache { entries: HashMap::new() }
    }

    /// The glyph index remembered for `key`, if any.
    pub fn get(&self, key: u32) -> (r: Option<usize>)
        ensures
            match r {
                Some(index) => self.spec_entries().contains_key(key) && self.spec_entries()[key] == index,
                None => !self.spec_entries().contains_key(key),
            },
    {
        match self.entries.get(&key) {
            Some(index) => Some(*index),
            None => None,
        }
    }

    /// Remembers `index` for `key`.
    pub fn insert(&mut self, key: u32, index: usize)
        ensures
            final(self).spec_entries() == old(self).spec_entries().insert(key, index),
    {
        self.entries.insert(key, index);
    }

    /// Forgets everything.
    pub fn clear(&mut self)
        ensures
            final(self).spec_entries() == Map::<u32, usize>::empty(),
    {
        self.entries.clear();
    }
}

} // verus!
