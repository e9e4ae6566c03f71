//! The xterm 256-colour palette, the grey-to-palette lookup table, and the
//! byte sequences of the SGR escape codes that select palette or truecolor
//! foregrounds.

use vstd::prelude::*;

verus! {

/// One channel step of the 6x6x6 colour cube of the xterm palette.
pub open spec fn cube_step(i: int) -> int {
    if i == 0 {
        0
    } else {
        55 + 40 * i
    }
}

/// The 16 system colours at the start of the xterm palette.
pub open spec fn system_color(i: int) -> (int, int, int) {
    if i == 0 {
        (0, 0, 0)
    } else if i == 1 {
        (128, 0, 0)
    } else if i == 2 {
        (0, 128, 0)
    } else if i == 3 {
        (128, 128, 0)
    } else if i == 4 {
        (0, 0, 128)
    } else if i == 5 {
        (128, 0, 128)
    } else if i == 6 {
        (0, 128, 128)
    } else if i == 7 {
        (192, 192, 192)
    } else if i == 8 {
        (128, 128, 128)
    } else if i == 9 {
        (255, 0, 0)
    } else if i == 10 {
        (0, 255, 0)
    } else if i == 11 {
        (255, 255, 0)
    } else if i == 12 {
        (0, 0, 255)
    } else if i == 13 {
        (255, 0, 255)
    } else if i == 14 {
        (0, 255, 255)
    } else {
        (255, 255, 255)
    }
}

/// Colour `i` (0..256) of the xterm palette: 16 system colours, the 6x6x6
/// cube in red-major order, then a 24-step grey ramp from 8 to 238.
pub open spec fn xterm_color(i: int) -> (int, int, int) {
    if i < 16 {
        system_color(i)
    } else if i < 232 {
        let c = i - 16;
        (cube_step(c / 36), cube_step((c / 6) % 6), cube_step(c % 6))
    } else {
        let v = 8 + 10 * (i - 232);
        (v, v, v)
    }
}

/// Squared distance between the grey `(g, g, g)` and palette colour `i`.
pub open spec fn gray_distance(g: int, i: int) -> int {
    let c = xterm_color(i);
    (g - c.0) * (g - c.0) + (g - c.1) * (g - c.1) + (g - c.2) * (g - c.2)
}

/// Palette index `i` is the entry among 16..256 closest to grey `g`, the
/// first such entry when several are equally close.
pub open spec fn is_nearest_gray(g: int, i: int) -> bool {
    &&& 16 <= i < 256
    &&& forall|j: int| 16 <= j < 256 ==> gray_distance(g, i) <= #[trigger] gray_distance(g, j)
    &&& forall|j: int| 16 <= j < i ==> gray_distance(g, i) < #[trigger] gray_distance(g, j)
}

/// The palette entry nearest to grey `g` (see `is_nearest_gray`).
pub open spec fn nearest_gray_index(g: int) -> int {
    choose|i: int| is_nearest_gray(g, i)
}

/// At most one palette entry is the nearest to a grey.
pub proof fn lemma_nearest_gray_unique(g: int, i: int, j: int)
    requires
        is_nearest_gray(g, i),
        is_nearest_gray(g, j),
    ensures
        i == j,
{
    if i < j {
        assert(gray_distance(g, j) < gray_distance(g, i));
    } else if j < i {
        assert(gray_distance(g, i) < gray_distance(g, j));
    }
}

/// Every entry of a grey lookup table is the nearest palette entry.
pub proof fn lemma_gray_lut_entry(lut: Seq<u8>, g: int)
    requires
        is_gray_lut(lut),
        0 <= g < 256,
    ensures
        lut[g] as int == nearest_gray_index(g),
{
    assert(is_nearest_gray(g, lut[g] as int));
    lemma_nearest_gray_unique(g, lut[g] as int, nearest_gray_index(g));
}

/// A table maps every grey level to its nearest palette entry.
pub open spec fn is_gray_lut(lut: Seq<u8>) -> bool {
    &&& lut.len() == 256
    &&& forall|g: int| 0 <= g < 256 ==> is_nearest_gray(g, #[trigger] lut[g] as int)
}

/// Builds the 256 entries of the xterm palette.
pub fn build_palette() -> (palette: Vec<[u8; 3]>)
    ensures
        palette@.len() == 256,
        forall|i: int|
            0 <= i < 256 ==> {
                let c = #[trigger] palette@[i];
                (c[0] as int, c[1] as int, c[2] as int) == xterm_color(i)
            },
{
    let mut palette: Vec<[u8; 3]> = Vec::with_capacity(256);
    palette.push([0, 0, 0]);
    palette.push([128, 0, 0]);
    palette.push([0, 128, 0]);
    palette.push([128, 128, 0]);
    palette.push([0, 0, 128]);
    palette.push([128, 0, 128]);
    palette.push([0, 128, 128]);
    palette.push([192, 192, 192]);
    palette.push([128, 128, 128]);
    palette.push([255, 0, 0]);
    palette.push([0, 255, 0]);
    palette.push([255, 255, 0]);
    palette.push([0, 0, 255]);
    palette.push([255, 0, 255]);
    palette.push([0, 255, 255]);
    palette.push([255, 255, 255]);
    assert forall|i: int| 0 <= i < 16 implies {
        let c = #[trigger] palette@[i];
        (c[0] as int, c[1] as int, c[2] as int) == xterm_color(i)
    } by {}

    let steps: [u8; 6] = [0, 95, 135, 175, 215, 255];
    assert forall|k: int| 0 <= k < 6 implies #[trigger] steps@[k] as int == cube_step(k) by {}
    let mut r: usize = 0;
    while r < 6
        invariant
            0 <= r <= 6,
            palette@.len() == 16 + 36 * r,
            forall|k: int| 0 <= k < 6 ==> #[trigger] steps@[k] as int == cube_step(k),
            forall|i: int|
                0 <= i < 16 + 36 * r ==> {
                    let c = #[trigger] palette@[i];
                    (c[0] as int, c[1] as int, c[2] as int) == xterm_color(i)
                },
        decreases 6 - r,
    {
        let mut g: usize = 0;
        while g < 6
            invariant
                0 <= r < 6,
                0 <= g <= 6,
                palette@.len() == 16 + 36 * r + 6 * g,
                forall|k: int| 0 <= k < 6 ==> #[trigger] steps@[k] as int == cube_step(k),
                forall|i: int|
                    0 <= i < 16 + 36 * r + 6 * g ==> {
                        let c = #[trigger] palette@[i];
                        (c[0] as int, c[1] as int, c[2] as int) == xterm_color(i)
                    },
            decreases 6 - g,
        {
            let mut b: usize = 0;
            while b < 6
                invariant
                    0 <= r < 6,
                    0 <= g < 6,
                    0 <= b <= 6,
                    palette@.len() == 16 + 36 * r + 6 * g + b,
                    forall|k: int| 0 <= k < 6 ==> #[trigger] steps@[k] as int == cube_step(k),
                    forall|i: int|
                        0 <= i < 16 + 36 * r + 6 * g + b ==> {
                            let c = #[trigger] palette@[i];
                            (c[0] as int, c[1] as int, c[2] as int) == xterm_color(i)
                        },
                decreases 6 - b,
            {
                let ghost n = palette@.len() as int;
                palette.push([steps[r], steps[g], steps[b]]);
                proof {
                    let c = n - 16;
                    assert(c == 36 * r + 6 * g + b);
                    assert(c / 36 == r as int) by (nonlinear_arith)
                        requires c == 36 * r + 6 * g + b, 0 <= g < 6, 0 <= b < 6, 0 <= r;
                    assert((c / 6) % 6 == g as int) by (nonlinear_arith)
                        requires c == 36 * r + 6 * g + b, 0 <= g < 6, 0 <= b < 6, 0 <= r;
                    assert(c % 6 == b as int) by (nonlinear_arith)
                        requires c == 36 * r + 6 * g + b, 0 <= g < 6, 0 <= b < 6, 0 <= r;
                }
                b += 1;
            }
            g += 1;
        }
        r += 1;
    }

    let mut value: u8 = 0;
    while value < 24
        invariant
            0 <= value <= 24,
            palette@.len() == 232 + value,
            forall|i: int|
                0 <= i < 232 + value ==> {
                    let c = #[trigger] palette@[i];
                    (c[0] as int, c[1] as int, c[2] as int) == xterm_color(i)
                },
        decreases 24 - value,
    {
        let gray: u8 = 8 + value * 10;
        palette.push([gray, gray, gray]);
        value += 1;
    }
    palette
}


/// Maps every grey level to the index of the nearest palette entry among the
/// cube and grey ramp (indices 16..256), the first on ties.
pub fn build_gray_lut() -> (lut: [u8; 256])
    ensures
        is_gray_lut(lut@),
{
    let palette = build_palette();
    let mut lut: [u8; 256] = [16u8; 256];
    let mut gray: u16 = 0;
    while gray <= 255
        invariant
            0 <= gray <= 256,
            lut@.len() == 256,
            palette@.len() == 256,
            forall|i: int|
                0 <= i < 256 ==> {
                    let c = #[trigger] palette@[i];
                    (c[0] as int, c[1] as int, c[2] as int) == xterm_color(i)
                },
            forall|g: int| 0 <= g < gray ==> is_nearest_gray(g, #[trigger] lut@[g] as int),
        decreases 256 - gray,
    {
        let g: i32 = gray as i32;
        let mut best_distance: i32 = i32::MAX;
        let mut best_index: u8 = 16;
        let mut index: usize = 16;
        while index < palette.len()
            invariant
                16 <= index <= 256,
                0 <= g < 256,
                palette@.len() == 256,
                forall|i: int|
                    0 <= i < 256 ==> {
                        let c = #[trigger] palette@[i];
                        (c[0] as int, c[1] as int, c[2] as int) == xterm_color(i)
                    },
                index == 16 ==> best_distance == i32::MAX && best_index == 16,
                index > 16 ==> 16 <= best_index < index && best_distance == gray_distance(
                    g as int,
                    best_index as int,
                ),
                forall|j: int| 16 <= j < index ==> best_distance <= #[trigger] gray_distance(g as int, j),
                forall|j: int| 16 <= j < best_index ==> best_distance < #[trigger] gray_distance(g as int, j),
            decreases 256 - index,
        {
            let color = palette[index];
            let dr: i32 = g - color[0] as i32;
            let dg: i32 = g - color[1] as i32;
            let db: i32 = g - color[2] as i32;
            assert(dr * dr <= 65025 && dg * dg <= 65025 && db * db <= 65025) by (nonlinear_arith)
                requires -255 <= dr <= 255, -255 <= dg <= 255, -255 <= db <= 255;
            assert(0 <= dr * dr && 0 <= dg * dg && 0 <= db * db) by (nonlinear_arith);
            let distance: i32 = dr * dr + dg * dg + db * db;
            assert(distance == gray_distance(g as int, index as int));
            if distance < best_distance {
                best_distance = distance;
                best_index = index as u8;
            }
            index += 1;
        }
        lut[gray as usize] = best_index;
        gray += 1;
    }
    lut
}


/// The ASCII decimal digits of `n`, most significant first, without leading zeros.
pub open spec fn decimal_digits(n: nat) -> Seq<u8>
    decreases n,
{
    if n < 10 {
        seq![(48 + n) as u8]
    } else {
        decimal_digits(n / 10).push((48 + n % 10) as u8)
    }
}

/// `ESC [ 38 ; 5 ; <index> m`: selects palette entry `index` as foreground.
pub open spec fn palette_fg_sgr(index: nat) -> Seq<u8> {
    seq![0x1bu8, 0x5bu8, 0x33u8, 0x38u8, 0x3bu8, 0x35u8, 0x3bu8] + decimal_digits(index) + seq![
        0x6du8,
    ]
}

/// `ESC [ <ground> ; 2 ; r ; g ; b m`, with `ground` 38 (foreground) or 48 (background).
pub open spec fn truecolor_sgr(ground_digit: u8, r: u8, g: u8, b: u8) -> Seq<u8> {
    seq![0x1bu8, 0x5bu8, ground_digit, 0x38u8, 0x3bu8, 0x32u8, 0x3bu8] + decimal_digits(r as nat)
        + seq![0x3bu8] + decimal_digits(g as nat) + seq![0x3bu8] + decimal_digits(b as nat) + seq![
        0x6du8,
    ]
}

/// The foreground truecolor escape `ESC [ 38 ; 2 ; r ; g ; b m`.
pub open spec fn truecolor_fg_sgr(r: u8, g: u8, b: u8) -> Seq<u8> {
    truecolor_sgr(0x33u8, r, g, b)
}

/// The background truecolor escape `ESC [ 48 ; 2 ; r ; g ; b m`.
pub open spec fn truecolor_bg_sgr(r: u8, g: u8, b: u8) -> Seq<u8> {
    truecolor_sgr(0x34u8, r, g, b)
}

/// The reset escape `ESC [ 0 m`.
pub open spec fn reset_sgr() -> Seq<u8> {
    seq![0x1bu8, 0x5bu8, 0x30u8, 0x6du8]
}

/// Appends the decimal digits of `n`.
pub fn push_decimal_u8(buf: &mut Vec<u8>, n: u8)
    ensures
        final(buf)@ == old(buf)@ + decimal_digits(n as nat),
{
    reveal_with_fuel(decimal_digits, 3);
    let mut n = n;
    if n >= 100 {
        buf.push(48 + n / 100);
        n = n % 100;
        buf.push(48 + n / 10);
        buf.push(48 + n % 10);
    } else if n >= 10 {
        buf.push(48 + n / 10);
        buf.push(48 + n % 10);
    } else {
        buf.push(48 + n);
    }
}


/// Appends `ESC [ <ground_digit>8 ; 2 ; r ; g ; b m`.
fn push_truecolor(buf: &mut Vec<u8>, ground_digit: u8, r: u8, g: u8, b: u8)
    ensures
        final(buf)@ == old(buf)@ + truecolor_sgr(ground_digit, r, g, b),
{
    buf.push(0x1b);
    buf.push(0x5b);
    buf.push(ground_digit);
    buf.push(0x38);
    buf.push(0x3b);
    buf.push(0x32);
    buf.push(0x3b);
    push_decimal_u8(buf, r);
    buf.push(0x3b);
    push_decimal_u8(buf, g);
    buf.push(0x3b);
    push_decimal_u8(buf, b);
    buf.push(0x6d);
    assert(final(buf)@ =~= old(buf)@ + truecolor_sgr(ground_digit, r, g, b));
}

/// Appends the truecolor foreground escape for `(r, g, b)`.
pub fn push_truecolor_fg(buf: &mut Vec<u8>, r: u8, g: u8, b: u8)
    ensures
        final(buf)@ == old(buf)@ + truecolor_fg_sgr(r, g, b),
{
    push_truecolor(buf, 0x33, r, g, b);
}

/// Appends the truecolor background escape for `(r, g, b)`.
pub fn push_truecolor_bg(buf: &mut Vec<u8>, r: u8, g: u8, b: u8)
    ensures
        final(buf)@ == old(buf)@ + truecolor_bg_sgr(r, g, b),
{
    push_truecolor(buf, 0x34, r, g, b);
}

/// The 256 palette-foreground escapes, indexed by palette entry.
pub open spec fn is_fg_sgr_table(table: Seq<Vec<u8>>) -> bool {
    &&& table.len() == 256
    &&& forall|i: int| 0 <= i < 256 ==> (#[trigger] table[i])@ == palette_fg_sgr(i as nat)
}

/// Builds the escape that selects each palette entry as foreground.
pub fn build_fg_sgr() -> (table: Vec<Vec<u8>>)
    ensures
        is_fg_sgr_table(table@),
{
    let mut table: Vec<Vec<u8>> = Vec::with_capacity(256);
    let mut index: u16 = 0;
    while index <= 255
        invariant
            0 <= index <= 256,
            table@.len() == index,
            forall|i: int| 0 <= i < index ==> (#[trigger] table@[i])@ == palette_fg_sgr(i as nat),
        decreases 256 - index,
    {
        let mut code: Vec<u8> = vec![0x1b, 0x5b, 0x33, 0x38, 0x3b, 0x35, 0x3b];
        push_decimal_u8(&mut code, index as u8);
        code.push(0x6d);
        assert(code@ =~= palette_fg_sgr(index as nat));
        table.push(code);
        index += 1;
    }
    table
}

} // verus!
