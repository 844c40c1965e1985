//! Integer raster work behind the tray icons: canvas sizes, alpha blending,
//! the fallback bitmap font, mask dilation and box downsampling.
use vstd::prelude::*;

use crate::models::WindowsTrayIconStyle;
use crate::text::{chars_of, utf8_len, utf8_len_exceeds};

verus! {

/// The platform a tray visual is drawn for.
#[derive(Debug, Clone, Copy, PartialEq, Eq, Structural)]
pub enum TrayVisualPlatform {
    Windows,
    Macos,
}

/// Canvas size (width, height) of a tray visual: at least 16 pixels high;
/// on macOS the card is 4:3 and the bar 5:4 wide, every other one square.
pub open spec fn visual_dimensions(style: WindowsTrayIconStyle, platform: TrayVisualPlatform, base_size: u32) -> (int, int) {
    let b: int = if base_size < 16 {
        16
    } else {
        base_size as int
    };
    if platform == TrayVisualPlatform::Macos && style == WindowsTrayIconStyle::GradientNumberCard {
        (b * 4 / 3, b)
    } else if platform == TrayVisualPlatform::Macos && style == WindowsTrayIconStyle::NumberProgressBar {
        (b * 5 / 4, b)
    } else {
        (b, b)
    }
}

/// Canvas size of a tray visual; for the macOS card and progress bar the
/// multiplication must fit in a `u32`.
pub fn tray_visual_dimensions(style: WindowsTrayIconStyle, platform: TrayVisualPlatform, base_size: u32) -> (r: (u32, u32))
    requires
        platform == TrayVisualPlatform::Macos && style == WindowsTrayIconStyle::GradientNumberCard ==> base_size
            <= u32::MAX / 4,
        platform == TrayVisualPlatform::Macos && style == WindowsTrayIconStyle::NumberProgressBar ==> base_size
            <= u32::MAX / 5,
    ensures
        (r.0 as int, r.1 as int) == visual_dimensions(style, platform, base_size),
{
    let base_size = if base_size < 16 {
        16
    } else {
        base_size
    };
    if platform == TrayVisualPlatform::Macos {
        match style {
            WindowsTrayIconStyle::GradientNumberCard => (base_size * 4 / 3, base_size),
            WindowsTrayIconStyle::NumberProgressBar => (base_size * 5 / 4, base_size),
            _ => (base_size, base_size),
        }
    } else {
        (base_size, base_size)
    }
}

/// An RGBA raster, four bytes per pixel, row by row.
pub struct Canvas {
    width: u32,
    height: u32,
    pixels: Vec<u8>,
}

/// The value of one colour channel after drawing a pixel with source alpha
/// `sa` over a destination pixel whose alpha is `da` (premultiplied "over",
/// rounded), truncated to a byte as the drawing code stores it.
pub open spec fn blended_channel(source: u8, destination: u8, sa: int, da: int, out_alpha: int) -> u8 {
    ((source * sa + destination * da * (255 - sa) / 255 + out_alpha / 2) / out_alpha) as u8
}

/// Alpha of a pixel after drawing with alpha `sa` over alpha `da`.
pub open spec fn blended_alpha(sa: int, da: int) -> int {
    sa + (da * (255 - sa) + 127) / 255
}

/// The pixel bytes after drawing `color` at (`x`, `y`) over `px`: nothing
/// changes outside the canvas or for a transparent colour.
pub open spec fn blend_pixels(w: int, h: int, px: Seq<u8>, x: int, y: int, color: Seq<u8>) -> Seq<u8> {
    if x >= w || y >= h || color[3] == 0 {
        px
    } else {
        let i = (y * w + x) * 4;
        let da = px[i + 3] as int;
        let sa = color[3] as int;
        let oa = blended_alpha(sa, da);
        if oa == 0 {
            px
        } else {
            px.update(i, blended_channel(color[0], px[i], sa, da, oa)).update(
                i + 1,
                blended_channel(color[1], px[i + 1], sa, da, oa),
            ).update(i + 2, blended_channel(color[2], px[i + 2], sa, da, oa)).update(
                i + 3,
                (if oa > 255 {
                    255
                } else {
                    oa
                }) as u8,
            )
        }
    }
}

impl Canvas {
    /// The pixel buffer holds four bytes for every pixel, and their number
    /// fits in a `u32`.
    pub closed spec fn wf(self) -> bool {
        &&& self.width * self.height * 4 <= u32::MAX
        &&& self.pixels@.len() == self.width * self.height * 4
    }

    pub closed spec fn spec_width(self) -> u32 {
        self.width
    }

    pub closed spec fn spec_height(self) -> u32 {
        self.height
    }

    pub closed spec fn spec_pixels(self) -> Seq<u8> {
        self.pixels@
    }

    /// A transparent canvas; its byte count must fit in a `u32`.
    pub fn new(width: u32, height: u32) -> (r: Self)
        requires
            width * height * 4 <= u32::MAX,
        ensures
            r.wf(),
            r.spec_width() == width,
            r.spec_height() == height,
            r.spec_pixels() == Seq::new((width * height * 4) as nat, |i: int| 0u8),
    {
        assert(width * height * 4 <= u32::MAX);
        let n = width * height * 4;
        let mut pixels: Vec<u8> = Vec::new();
        let mut i: u32 = 0;
        while i < n
            invariant
                i <= n,
                pixels@ == Seq::new(i as nat, |k: int| 0u8),
            decreases n - i,
        {
            pixels.push(0);
            i = i + 1;
        }
        Canvas { width, height, pixels }
    }

    pub fn width(&self) -> (r: u32)
        ensures
            r == self.spec_width(),
    {
        self.width
    }

    pub fn height(&self) -> (r: u32)
        ensures
            r == self.spec_height(),
    {
        self.height
    }

    /// The RGBA bytes of the canvas.
    pub fn pixels(&self) -> (r: &[u8])
        ensures
            r@ == self.spec_pixels(),
    {
        self.pixels.as_slice()
    }

    /// Draws `color` (RGBA) over the pixel at (`x`, `y`).
    pub fn blend(&mut self, x: u32, y: u32, color: [u8; 4])
        requires
            old(self).wf(),
        ensures
            final(self).wf(),
            final(self).spec_width() == old(self).spec_width(),
            final(self).spec_height() == old(self).spec_height(),
            final(self).spec_pixels() == blend_pixels(
                old(self).spec_width() as int,
                old(self).spec_height() as int,
                old(self).spec_pixels(),
                x as int,
                y as int,
                color@,
            ),
    {
        if x >= self.width || y >= self.height || color[3] == 0 {
            return;
        }
        let w = self.width;
        let h = self.height;
        assert((y as int) * (w as int) + (x as int) < (h as int) * (w as int)) by (nonlinear_arith)
            requires
                x < w,
                y < h,
        ;
        assert((h as int) * (w as int) == (w as int) * (h as int)) by (nonlinear_arith);
        let index = (y * w + x) * 4;
        let destination_alpha = self.pixels[index as usize + 3] as u32;
        let source_alpha = color[3] as u32;
        let inverse = 255 - source_alpha;
        assert(destination_alpha * inverse <= 255 * 255) by (nonlinear_arith)
            requires
                destination_alpha <= 255,
                inverse <= 255,
        ;
        let output_alpha = source_alpha + (destination_alpha * inverse + 127) / 255;
        if output_alpha == 0 {
            return;
        }
        let ghost px = self.pixels@;
        let i = index as usize;
        let mut channel: usize = 0;
        while channel < 3
            invariant
                0 <= channel <= 3,
                i + 3 < self.pixels@.len(),
                i + 3 < u32::MAX,
                i == (y * w + x) * 4,
                self.pixels@.len() == px.len(),
                self.width == w,
                self.height == h,
                1 <= source_alpha <= 255,
                inverse == 255 - source_alpha,
                destination_alpha == px[i + 3],
                output_alpha == blended_alpha(source_alpha as int, destination_alpha as int),
                output_alpha >= 1,
                output_alpha <= 510,
                forall|k: int| 0 <= k < self.pixels@.len() && !(i <= k < i + channel) ==> self.pixels@[k] == px[k],
                forall|c: int|
                    0 <= c < channel ==> #[trigger] self.pixels@[i + c] == blended_channel(
                        color@[c],
                        px[i + c],
                        source_alpha as int,
                        destination_alpha as int,
                        output_alpha as int,
                    ),
            decreases 3 - channel,
        {
            let source = color[channel] as u32;
            let destination = self.pixels[i + channel] as u32;
            assert(source * source_alpha <= 255 * 255) by (nonlinear_arith)
                requires
                    source <= 255,
                    source_alpha <= 255,
            ;
            assert(destination * destination_alpha <= 255 * 255) by (nonlinear_arith)
                requires
                    destination <= 255,
                    destination_alpha <= 255,
            ;
            let covered = destination * destination_alpha;
            assert(covered * inverse <= 255 * 255 * 255) by (nonlinear_arith)
                requires
                    covered <= 255 * 255,
                    inverse <= 255,
            ;
            let source_premultiplied = source * source_alpha;
            let destination_premultiplied = covered * inverse / 255;
            let mixed = (source_premultiplied + destination_premultiplied + output_alpha / 2)
                / output_alpha;
            let value = (#[verifier::truncate] (mixed as u8));
            self.pixels.set(i + channel, value);
            channel = channel + 1;
        }
        let alpha: u8 = if output_alpha > 255 {
            255
        } else {
            output_alpha as u8
        };
        self.pixels.set(i + 3, alpha);
        let ghost b = blend_pixels(w as int, h as int, px, x as int, y as int, color@);
        assert forall|k: int| 0 <= k < px.len() implies self.pixels@[k] == b[k] by {
            if i <= k < i + 3 {
                let c = k - i;
                assert(self.pixels@[i + c] == blended_channel(
                    color@[c],
                    px[i + c],
                    source_alpha as int,
                    destination_alpha as int,
                    output_alpha as int,
                ));
            }
        }
        assert(self.pixels@ =~= b);
    }
}

pub open spec fn is_ascii_digit(c: char) -> bool {
    '0' <= c && c <= '9'
}

/// Labels of at most two digits are sized as `70`, so that every such
/// percentage gets the same font size; other labels are sized as themselves.
pub open spec fn sizing_reference(label: Seq<char>) -> Seq<char> {
    if utf8_len(label) <= 2 && forall|i: int| 0 <= i < label.len() ==> is_ascii_digit(#[trigger] label[i]) {
        "70"@
    } else {
        label
    }
}

/// The text whose size decides the font size of `label`.
pub fn text_sizing_reference<'a>(label: &'a str) -> (r: &'a str)
    ensures
        r@ == sizing_reference(label@),
{
    let v = chars_of(label);
    if utf8_len_exceeds(v.as_slice(), 2) {
        return label;
    }
    let mut i: usize = 0;
    while i < v.len()
        invariant
            i <= v@.len(),
            v@ == label@,
            forall|j: int| 0 <= j < i ==> is_ascii_digit(#[trigger] v@[j]),
        decreases v@.len() - i,
    {
        if !('0' <= v[i] && v[i] <= '9') {
            assert(!is_ascii_digit(v@[i as int]));
            return label;
        }
        i = i + 1;
    }
    "70"
}

/// Rows (top to bottom, five bits each, leftmost column in the highest bit)
/// of the fallback 5x7 bitmap glyph of `ch`; blank for characters the font
/// lacks.
pub open spec fn glyph(ch: char) -> Seq<u8> {
    if ch == '0' {
        seq![0b01110u8, 0b10001, 0b10011, 0b10101, 0b11001, 0b10001, 0b01110]
    } else if ch == '1' {
        seq![0b00100u8, 0b01100, 0b10100, 0b00100, 0b00100, 0b00100, 0b11111]
    } else if ch == '2' {
        seq![0b01110u8, 0b10001, 0b00001, 0b00010, 0b00100, 0b01000, 0b11111]
    } else if ch == '3' {
        seq![0b11110u8, 0b00001, 0b00001, 0b01110, 0b00001, 0b00001, 0b11110]
    } else if ch == '4' {
        seq![0b00010u8, 0b00110, 0b01010, 0b10010, 0b11111, 0b00010, 0b00010]
    } else if ch == '5' {
        seq![0b11111u8, 0b10000, 0b10000, 0b11110, 0b00001, 0b00001, 0b11110]
    } else if ch == '6' {
        seq![0b01110u8, 0b10000, 0b10000, 0b11110, 0b10001, 0b10001, 0b01110]
    } else if ch == '7' {
        seq![0b11111u8, 0b00001, 0b00010, 0b00100, 0b01000, 0b01000, 0b01000]
    } else if ch == '8' {
        seq![0b01110u8, 0b10001, 0b10001, 0b01110, 0b10001, 0b10001, 0b01110]
    } else if ch == '9' {
        seq![0b01110u8, 0b10001, 0b10001, 0b01111, 0b00001, 0b00001, 0b01110]
    } else if ch == '-' {
        seq![0u8, 0, 0, 0b11111, 0, 0, 0]
    } else if ch == '!' {
        seq![0b00100u8, 0b00100, 0b00100, 0b00100, 0b00100, 0, 0b00100]
    } else {
        seq![0u8, 0, 0, 0, 0, 0, 0]
    }
}

/// The bitmap glyph of `ch`.
pub fn glyph_rows(ch: char) -> (r: [u8; 7])
    ensures
        r@ == glyph(ch),
{
    let r: [u8; 7] = if ch == '0' {
        [0b01110, 0b10001, 0b10011, 0b10101, 0b11001, 0b10001, 0b01110]
    } else if ch == '1' {
        [0b00100, 0b01100, 0b10100, 0b00100, 0b00100, 0b00100, 0b11111]
    } else if ch == '2' {
        [0b01110, 0b10001, 0b00001, 0b00010, 0b00100, 0b01000, 0b11111]
    } else if ch == '3' {
        [0b11110, 0b00001, 0b00001, 0b01110, 0b00001, 0b00001, 0b11110]
    } else if ch == '4' {
        [0b00010, 0b00110, 0b01010, 0b10010, 0b11111, 0b00010, 0b00010]
    } else if ch == '5' {
        [0b11111, 0b10000, 0b10000, 0b11110, 0b00001, 0b00001, 0b11110]
    } else if ch == '6' {
        [0b01110, 0b10000, 0b10000, 0b11110, 0b10001, 0b10001, 0b01110]
    } else if ch == '7' {
        [0b11111, 0b00001, 0b00010, 0b00100, 0b01000, 0b01000, 0b01000]
    } else if ch == '8' {
        [0b01110, 0b10001, 0b10001, 0b01110, 0b10001, 0b10001, 0b01110]
    } else if ch == '9' {
        [0b01110, 0b10001, 0b10001, 0b01111, 0b00001, 0b00001, 0b01110]
    } else if ch == '-' {
        [0, 0, 0, 0b11111, 0, 0, 0]
    } else if ch == '!' {
        [0b00100, 0b00100, 0b00100, 0b00100, 0b00100, 0, 0b00100]
    } else {
        [0; 7]
    };
    assert(r@ =~= glyph(ch));
    r
}

pub open spec fn max_u8(a: u8, b: u8) -> u8 {
    if a >= b {
        a
    } else {
        b
    }
}

/// What the mask pixel at offset (`ox`, `oy`) from (`x`, `y`) contributes to
/// the dilation: its value when the offset lies within the disc of radius
/// `r` and the pixel within the `w` by `h` mask; else nothing.
pub open spec fn disc_sample(mask: Seq<u8>, w: int, h: int, r: int, x: int, y: int, ox: int, oy: int) -> u8 {
    let sx = x + ox;
    let sy = y + oy;
    if ox * ox + oy * oy <= r * r && 0 <= sx < w && 0 <= sy < h {
        mask[sy * w + sx]
    } else {
        0
    }
}

/// Largest sample in row `oy` of the disc for offsets `-r <= ox < hi`.
pub open spec fn disc_row_max(mask: Seq<u8>, w: int, h: int, r: int, x: int, y: int, oy: int, hi: int) -> u8
    decreases hi + r,
{
    if hi <= -r {
        0
    } else {
        max_u8(disc_row_max(mask, w, h, r, x, y, oy, hi - 1), disc_sample(mask, w, h, r, x, y, hi - 1, oy))
    }
}

/// Largest sample of the disc for rows `-r <= oy < hi`.
pub open spec fn disc_max(mask: Seq<u8>, w: int, h: int, r: int, x: int, y: int, hi: int) -> u8
    decreases hi + r,
{
    if hi <= -r {
        0
    } else {
        max_u8(disc_max(mask, w, h, r, x, y, hi - 1), disc_row_max(mask, w, h, r, x, y, hi - 1, r + 1))
    }
}

/// The dilated value at (`x`, `y`): the largest mask value within distance
/// `r` (Euclidean, inside the mask), or 0.
pub open spec fn dilated(mask: Seq<u8>, w: int, h: int, r: int, x: int, y: int) -> u8 {
    disc_max(mask, w, h, r, x, y, r + 1)
}

/// The dilated value of one pixel.
fn dilated_value(mask: &[u8], width: i32, height: i32, radius: i32, x: i32, y: i32) -> (v: u8)
    requires
        0 <= radius,
        radius * radius <= i32::MAX / 2,
        0 <= x < width,
        0 <= y < height,
        width + radius <= i32::MAX,
        height + radius <= i32::MAX,
        width * height <= mask@.len(),
        mask@.len() <= usize::MAX,
    ensures
        v == dilated(mask@, width as int, height as int, radius as int, x as int, y as int),
{
    let mut value: u8 = 0;
    let mut oy: i32 = -radius;
    while oy <= radius
        invariant
            -radius <= oy <= radius + 1,
            0 <= radius,
            radius * radius <= i32::MAX / 2,
            0 <= x < width,
            0 <= y < height,
            width + radius <= i32::MAX,
            height + radius <= i32::MAX,
            width * height <= mask@.len(),
            mask@.len() <= usize::MAX,
            value == disc_max(mask@, width as int, height as int, radius as int, x as int, y as int, oy as int),
        decreases radius + 1 - oy,
    {
        let mut row: u8 = 0;
        let mut ox: i32 = -radius;
        while ox <= radius
            invariant
                -radius <= ox <= radius + 1,
                -radius <= oy <= radius,
                0 <= radius,
                radius * radius <= i32::MAX / 2,
                0 <= x < width,
                0 <= y < height,
                width + radius <= i32::MAX,
                height + radius <= i32::MAX,
                width * height <= mask@.len(),
                mask@.len() <= usize::MAX,
                row == disc_row_max(mask@, width as int, height as int, radius as int, x as int, y as int, oy as int, ox as int),
            decreases radius + 1 - ox,
        {
            assert(0 <= ox * ox <= radius * radius && 0 <= oy * oy <= radius * radius) by (nonlinear_arith)
                requires
                    -radius <= ox <= radius,
                    -radius <= oy <= radius,
            ;
            let sample: u8 = if ox * ox + oy * oy > radius * radius {
                0
            } else {
                let sx = x + ox;
                let sy = y + oy;
                if sx >= 0 && sy >= 0 && sx < width && sy < height {
                    assert((sy as int) * (width as int) + (sx as int) < (width as int) * (height as int)) by (nonlinear_arith)
                        requires
                            0 <= sx < width,
                            0 <= sy < height,
                    ;
                    mask[sy as usize * width as usize + sx as usize]
                } else {
                    0
                }
            };
            assert(sample == disc_sample(mask@, width as int, height as int, radius as int, x as int, y as int, ox as int, oy as int));
            if sample > row {
                row = sample;
            }
            ox = ox + 1;
        }
        if row > value {
            value = row;
        }
        oy = oy + 1;
    }
    value
}

proof fn lemma_row_major_before(yy: int, xx: int, y: int, x: int, w: int)
    requires
        0 <= xx < w,
        0 <= x,
        0 <= yy < y,
    ensures
        yy * w + xx < y * w + x,
{
    assert(yy * w + xx < y * w) by (nonlinear_arith)
        requires
            0 <= xx < w,
            0 <= yy < y,
    ;
}

/// Dilates a `width` by `height` 8-bit mask by a disc of `radius` pixels.
/// Bytes of `mask` past `width * height` come out zero. The bounds are those
/// under which the computation stays within `i32`.
pub fn dilate_mask(mask: &[u8], width: u32, height: u32, radius: u32) -> (r: Vec<u8>)
    requires
        width * height <= mask@.len(),
        radius <= 32767,
        width + radius <= i32::MAX,
        height + radius <= i32::MAX,
    ensures
        r@.len() == mask@.len(),
        forall|y: int, x: int|
            0 <= y < height && 0 <= x < width ==> #[trigger] r@[y * width + x] == dilated(
                mask@,
                width as int,
                height as int,
                radius as int,
                x,
                y,
            ),
        forall|k: int| width * height <= k < mask@.len() ==> r@[k] == 0,
{
    let mut expanded: Vec<u8> = Vec::new();
    let mut k: usize = 0;
    while k < mask.len()
        invariant
            k <= mask@.len(),
            expanded@ == Seq::new(k as nat, |i: int| 0u8),
        decreases mask@.len() - k,
    {
        expanded.push(0);
        k = k + 1;
    }
    let n = mask.len();
    let w = width as i32;
    let h = height as i32;
    let rad = radius as i32;
    assert(rad * rad <= i32::MAX / 2) by (nonlinear_arith)
        requires
            0 <= rad <= 32767,
    ;
    let mut y: i32 = 0;
    while y < h
        invariant
            0 <= y <= h,
            w == width,
            h == height,
            rad == radius,
            rad * rad <= i32::MAX / 2,
            width * height <= mask@.len(),
            n == mask@.len(),
            width + radius <= i32::MAX,
            height + radius <= i32::MAX,
            expanded@.len() == mask@.len(),
            forall|yy: int, xx: int|
                0 <= yy < y && 0 <= xx < width ==> #[trigger] expanded@[yy * width + xx] == dilated(
                    mask@,
                    width as int,
                    height as int,
                    radius as int,
                    xx,
                    yy,
                ),
            forall|k: int| y * width <= k < mask@.len() ==> expanded@[k] == 0,
        decreases h - y,
    {
        let mut x: i32 = 0;
        while x < w
            invariant
                0 <= y < h,
                0 <= x <= w,
                w == width,
                h == height,
                rad == radius,
                rad * rad <= i32::MAX / 2,
                width * height <= mask@.len(),
                n == mask@.len(),
                width + radius <= i32::MAX,
                height + radius <= i32::MAX,
                expanded@.len() == mask@.len(),
                forall|yy: int, xx: int|
                    ((0 <= yy < y && 0 <= xx < width) || (yy == y && 0 <= xx < x)) ==> #[trigger] expanded@[yy * width + xx]
                        == dilated(mask@, width as int, height as int, radius as int, xx, yy),
                forall|k: int| y * width + x <= k < mask@.len() ==> expanded@[k] == 0,
            decreases w - x,
        {
            let value = dilated_value(mask, w, h, rad, x, y);
            assert((y as int) * (width as int) + (x as int) < (width as int) * (height as int)) by (nonlinear_arith)
                requires
                    0 <= x < width,
                    0 <= y < height,
            ;
            let index = y as usize * width as usize + x as usize;
            let ghost before = expanded@;
            expanded.set(index, value);
            assert forall|yy: int, xx: int|
                ((0 <= yy < y && 0 <= xx < width) || (yy == y && 0 <= xx < x + 1)) implies #[trigger] expanded@[yy * width + xx]
                    == dilated(mask@, width as int, height as int, radius as int, xx, yy) by {
                if yy < y {
                    lemma_row_major_before(yy, xx, y as int, x as int, width as int);
                }
            }
            x = x + 1;
        }
        proof {
            assert forall|k: int| (y + 1) * width <= k < mask@.len() implies expanded@[k] == 0 by {
                assert((y + 1) * width == y * width + width) by (nonlinear_arith);
            }
        }
        y = y + 1;
    }
    proof {
        assert forall|k: int| width * height <= k < mask@.len() implies expanded@[k] == 0 by {
            assert(height * width == width * height) by (nonlinear_arith);
        }
    }
    expanded
}

/// First source row (or column) of the box that destination row (or column)
/// `i` averages, when `source` pixels shrink to `destination`.
pub open spec fn box_start(i: int, source: int, destination: int) -> int {
    i * source / destination
}

/// End of that box: at least one past its start, and no further than the source.
pub open spec fn box_end(i: int, source: int, destination: int) -> int {
    let end = (i + 1) * source / destination;
    let start = box_start(i, source, destination);
    let at_least_one = if end > start + 1 { end } else { start + 1 };
    if at_least_one < source { at_least_one } else { source }
}

/// What source pixel `(x, y)` adds to channel sum `channel`: its colour
/// weighted by its alpha for channels 0 to 2, its alpha for channel 3.
pub open spec fn pixel_term(source: Seq<u8>, width: int, y: int, x: int, channel: int) -> int {
    let i = (y * width + x) * 4;
    if channel < 3 {
        source[i + channel] * source[i + 3]
    } else {
        source[i + 3] as int
    }
}

/// Sum of `pixel_term` over row `y`, columns `[x0, x)`.
pub open spec fn row_sum(source: Seq<u8>, width: int, y: int, x0: int, x: int, channel: int) -> int
    decreases x - x0,
{
    if x <= x0 {
        0
    } else {
        row_sum(source, width, y, x0, x - 1, channel) + pixel_term(source, width, y, x - 1, channel)
    }
}

/// Sum of `pixel_term` over rows `[y0, y)`, columns `[x0, x1)`.
pub open spec fn box_sum(
    source: Seq<u8>,
    width: int,
    y0: int,
    y: int,
    x0: int,
    x1: int,
    channel: int,
) -> int
    decreases y - y0,
{
    if y <= y0 {
        0
    } else {
        box_sum(source, width, y0, y - 1, x0, x1, channel) + row_sum(source, width, y - 1, x0, x1, channel)
    }
}

/// Number of pixels in rows `[y0, y1)`, columns `[x0, x1)`.
pub open spec fn box_count(y0: int, y1: int, x0: int, x1: int) -> int {
    (if y1 > y0 { y1 - y0 } else { 0 }) * (if x1 > x0 { x1 - x0 } else { 0 })
}

/// Byte `k` of the downsampled image: pixel `k / 4` in row-major order,
/// channel `k % 4`. Colour channels are the alpha-weighted mean of the
/// box, rounded (0 where the box is fully transparent); alpha is the
/// rounded mean alpha, capped at 255.
pub open spec fn downsampled_byte(
    source: Seq<u8>,
    source_width: int,
    source_height: int,
    destination_width: int,
    destination_height: int,
    k: int,
) -> u8 {
    let p = k / 4;
    let channel = k % 4;
    let y = p / destination_width;
    let x = p % destination_width;
    let top = box_start(y, source_height, destination_height);
    let bottom = box_end(y, source_height, destination_height);
    let left = box_start(x, source_width, destination_width);
    let right = box_end(x, source_width, destination_width);
    let alpha = box_sum(source, source_width, top, bottom, left, right, 3);
    let count = box_count(top, bottom, left, right);
    if channel == 3 {
        let mean = (alpha + count / 2) / (if count >= 1 { count } else { 1 });
        (if mean < 255 { mean } else { 255 }) as u8
    } else if alpha > 0 {
        ((box_sum(source, source_width, top, bottom, left, right, channel) + alpha / 2) / alpha) as u8
    } else {
        0
    }
}

proof fn lemma_pixel_index(y: int, x: int, channel: int, width: int)
    requires
        0 <= y,
        0 <= x < width,
        0 <= channel < 4,
    ensures
        ((y * width + x) * 4 + channel) / 4 == y * width + x,
        ((y * width + x) * 4 + channel) % 4 == channel,
        (y * width + x) / width == y,
        (y * width + x) % width == x,
{
    vstd::arithmetic::div_mod::lemma_fundamental_div_mod_converse(
        (y * width + x) * 4 + channel,
        4,
        y * width + x,
        channel,
    );
    vstd::arithmetic::div_mod::lemma_fundamental_div_mod_converse(y * width + x, width, y, x);
}

/// `box_start` is below `source` when `i` is below `destination`.
proof fn lemma_box_start_below(i: int, source: int, destination: int)
    requires
        0 <= i < destination,
        0 < source,
    ensures
        0 <= box_start(i, source, destination) < source,
{
    let q = i * source / destination;
    vstd::arithmetic::div_mod::lemma_fundamental_div_mod(i * source, destination);
    assert(0 <= i * source) by (nonlinear_arith)
        requires
            0 <= i,
            0 < source,
    ;
    vstd::arithmetic::div_mod::lemma_div_pos_is_pos(i * source, destination);
    assert(q < source) by (nonlinear_arith)
        requires
            destination * q + (i * source) % destination == i * source,
            0 <= (i * source) % destination,
            i < destination,
            0 < source,
            0 < destination,
    ;
}

/// The five sums of a box: the alpha-weighted colour channels, the alpha
/// and the pixel count.
fn box_sums(
    source: &[u8],
    source_width: u32,
    source_height: u32,
    top: u32,
    bottom: u32,
    left: u32,
    right: u32,
) -> (r: (u64, u64, u64, u64, u64))
    requires
        source_width * source_height * 4 <= source@.len(),
        source_width * source_height * 4 <= u32::MAX,
        bottom <= source_height,
        right <= source_width,
    ensures
        r.0 == box_sum(source@, source_width as int, top as int, bottom as int, left as int, right as int, 0),
        r.1 == box_sum(source@, source_width as int, top as int, bottom as int, left as int, right as int, 1),
        r.2 == box_sum(source@, source_width as int, top as int, bottom as int, left as int, right as int, 2),
        r.3 == box_sum(source@, source_width as int, top as int, bottom as int, left as int, right as int, 3),
        r.4 == box_count(top as int, bottom as int, left as int, right as int),
        r.0 <= 65025 * r.4,
        r.1 <= 65025 * r.4,
        r.2 <= 65025 * r.4,
        r.3 <= 255 * r.4,
        r.4 <= 0x1_0000_0000u64,
{
    let ghost src = source@;
    let ghost cols: int = if right > left { right - left } else { 0 };
    let mut c0: u64 = 0;
    let mut c1: u64 = 0;
    let mut c2: u64 = 0;
    let mut alpha: u64 = 0;
    let mut count: u64 = 0;
    if top >= bottom {
        return (0, 0, 0, 0, 0);
    }
    let mut y = top;
    while y < bottom
        invariant
            top <= y <= bottom <= source_height,
            right <= source_width,
            source_width * source_height * 4 <= source@.len(),
            source_width * source_height * 4 <= u32::MAX,
            src == source@,
            cols == (if right > left { right - left } else { 0 }),
            c0 == box_sum(src, source_width as int, top as int, y as int, left as int, right as int, 0),
            c1 == box_sum(src, source_width as int, top as int, y as int, left as int, right as int, 1),
            c2 == box_sum(src, source_width as int, top as int, y as int, left as int, right as int, 2),
            alpha == box_sum(src, source_width as int, top as int, y as int, left as int, right as int, 3),
            count == (y - top) * cols,
            count <= 0x1_0000_0000u64,
            c0 <= 65025 * count,
            c1 <= 65025 * count,
            c2 <= 65025 * count,
            alpha <= 255 * count,
        decreases bottom - y,
    {
        let mut x = left;
        while x < right
            invariant
                top <= y < bottom <= source_height,
                left <= x,
                x <= right || x == left,
                right <= source_width,
                source_width * source_height * 4 <= source@.len(),
                source_width * source_height * 4 <= u32::MAX,
                src == source@,
                cols == (if right > left { right - left } else { 0 }),
                c0 == box_sum(src, source_width as int, top as int, y as int, left as int, right as int, 0)
                    + row_sum(src, source_width as int, y as int, left as int, x as int, 0),
                c1 == box_sum(src, source_width as int, top as int, y as int, left as int, right as int, 1)
                    + row_sum(src, source_width as int, y as int, left as int, x as int, 1),
                c2 == box_sum(src, source_width as int, top as int, y as int, left as int, right as int, 2)
                    + row_sum(src, source_width as int, y as int, left as int, x as int, 2),
                alpha == box_sum(src, source_width as int, top as int, y as int, left as int, right as int, 3)
                    + row_sum(src, source_width as int, y as int, left as int, x as int, 3),
                count == (y - top) * cols + (x - left),
                c0 <= 65025 * count,
                c1 <= 65025 * count,
                c2 <= 65025 * count,
                alpha <= 255 * count,
            decreases right - x,
        {
            assert(count + 1 <= source_width * source_height) by (nonlinear_arith)
                requires
                    count == (y - top) * cols + (x - left),
                    x - left < cols,
                    y - top + 1 <= source_height,
                    cols <= source_width,
                    0 <= y - top,
            ;
            assert((y * source_width + x) * 4 + 3 < source_width * source_height * 4) by (nonlinear_arith)
                requires
                    y < source_height,
                    x < source_width,
            ;
            let index = ((y * source_width + x) * 4) as usize;
            let a = source[index + 3] as u64;
            let r0 = source[index] as u64;
            let r1 = source[index + 1] as u64;
            let r2 = source[index + 2] as u64;
            assert(r0 * a <= 65025) by (nonlinear_arith)
                requires
                    r0 <= 255,
                    a <= 255,
            ;
            assert(r1 * a <= 65025) by (nonlinear_arith)
                requires
                    r1 <= 255,
                    a <= 255,
            ;
            assert(r2 * a <= 65025) by (nonlinear_arith)
                requires
                    r2 <= 255,
                    a <= 255,
            ;
            assert(65025 * (count + 1) <= 65025 * 0x1_0000_0000u64) by (nonlinear_arith)
                requires
                    count + 1 <= 0x1_0000_0000u64,
            ;
            alpha = alpha + a;
            c0 = c0 + r0 * a;
            c1 = c1 + r1 * a;
            c2 = c2 + r2 * a;
            count = count + 1;
            x = x + 1;
        }
        assert((y - top) * cols + cols == (y + 1 - top) * cols) by (nonlinear_arith);
        assert((y + 1 - top) * cols <= source_width * source_height) by (nonlinear_arith)
            requires
                y + 1 - top <= source_height,
                0 <= y + 1 - top,
                0 <= cols <= source_width,
        ;
        y = y + 1;
    }
    proof {
        if cols > 0 {
            assert(box_count(top as int, bottom as int, left as int, right as int) == (y - top) * cols);
        } else {
            assert(box_count(top as int, bottom as int, left as int, right as int) == 0) by (nonlinear_arith)
                requires
                    box_count(top as int, bottom as int, left as int, right as int) == (if bottom > top { bottom - top } else { 0 }) * 0,
            ;
            assert((y - top) * cols == 0) by (nonlinear_arith)
                requires
                    cols == 0,
            ;
        }
    }
    (c0, c1, c2, alpha, count)
}

/// The four bytes of destination pixel `(x, y)`.
fn downsample_pixel(
    source: &[u8],
    source_width: u32,
    source_height: u32,
    destination_width: u32,
    destination_height: u32,
    x: u32,
    y: u32,
) -> (r: (u8, u8, u8, u8))
    requires
        source_width * source_height * 4 <= source@.len(),
        source_width * source_height * 4 <= u32::MAX,
        destination_height * source_height <= u32::MAX,
        destination_width * source_width <= u32::MAX,
        x < destination_width,
        y < destination_height,
    ensures
        r.0 == downsampled_byte(source@, source_width as int, source_height as int, destination_width as int, destination_height as int, (y * destination_width + x) * 4),
        r.1 == downsampled_byte(source@, source_width as int, source_height as int, destination_width as int, destination_height as int, (y * destination_width + x) * 4 + 1),
        r.2 == downsampled_byte(source@, source_width as int, source_height as int, destination_width as int, destination_height as int, (y * destination_width + x) * 4 + 2),
        r.3 == downsampled_byte(source@, source_width as int, source_height as int, destination_width as int, destination_height as int, (y * destination_width + x) * 4 + 3),
{
    assert((y + 1) * source_height <= destination_height * source_height) by (nonlinear_arith)
        requires
            y + 1 <= destination_height,
    ;
    assert((x + 1) * source_width <= destination_width * source_width) by (nonlinear_arith)
        requires
            x + 1 <= destination_width,
    ;
    assert(y * source_height <= (y + 1) * source_height) by (nonlinear_arith);
    assert(x * source_width <= (x + 1) * source_width) by (nonlinear_arith);
    let top = y * source_height / destination_height;
    if source_height > 0 {
        proof {
            lemma_box_start_below(y as int, source_height as int, destination_height as int);
        }
    }
    let bottom_raw = (y + 1) * source_height / destination_height;
    let bottom = if bottom_raw > top + 1 { bottom_raw } else { top + 1 };
    let bottom = if bottom < source_height { bottom } else { source_height };
    let left = x * source_width / destination_width;
    if source_width > 0 {
        proof {
            lemma_box_start_below(x as int, source_width as int, destination_width as int);
        }
    }
    let right_raw = (x + 1) * source_width / destination_width;
    let right = if right_raw > left + 1 { right_raw } else { left + 1 };
    let right = if right < source_width { right } else { source_width };
    let (c0, c1, c2, alpha, count) = box_sums(source, source_width, source_height, top, bottom, left, right);
    let r0 = if alpha > 0 { ((c0 + alpha / 2) / alpha) as u8 } else { 0 };
    let r1 = if alpha > 0 { ((c1 + alpha / 2) / alpha) as u8 } else { 0 };
    let r2 = if alpha > 0 { ((c2 + alpha / 2) / alpha) as u8 } else { 0 };
    let divisor = if count >= 1 { count } else { 1 };
    let mean = (alpha + count / 2) / divisor;
    let r3 = (if mean < 255 { mean } else { 255 }) as u8;
    proof {
        lemma_pixel_index(y as int, x as int, 0, destination_width as int);
        lemma_pixel_index(y as int, x as int, 1, destination_width as int);
        lemma_pixel_index(y as int, x as int, 2, destination_width as int);
        lemma_pixel_index(y as int, x as int, 3, destination_width as int);
    }
    (r0, r1, r2, r3)
}

/// Shrinks a `source_width` by `source_height` RGBA image to
/// `destination_width` by `destination_height` with a box filter, averaging
/// colour weighted by alpha. The bounds are those under which the
/// computation stays within `u32`.
pub fn downsample_rgba(
    source: &[u8],
    source_width: u32,
    source_height: u32,
    destination_width: u32,
    destination_height: u32,
) -> (r: Vec<u8>)
    requires
        source_width * source_height * 4 <= source@.len(),
        source_width * source_height * 4 <= u32::MAX,
        destination_width * destination_height * 4 <= u32::MAX,
        destination_height * source_height <= u32::MAX,
        destination_width * source_width <= u32::MAX,
    ensures
        r@.len() == destination_width * destination_height * 4,
        forall|k: int|
            0 <= k < r@.len() ==> #[trigger] r@[k] == downsampled_byte(
                source@,
                source_width as int,
                source_height as int,
                destination_width as int,
                destination_height as int,
                k,
            ),
{
    let ghost sw = source_width as int;
    let ghost sh = source_height as int;
    let ghost dw = destination_width as int;
    let ghost dh = destination_height as int;
    let mut out: Vec<u8> = Vec::new();
    let mut y: u32 = 0;
    while y < destination_height
        invariant
            y <= destination_height,
            source_width * source_height * 4 <= source@.len(),
            source_width * source_height * 4 <= u32::MAX,
            destination_height * source_height <= u32::MAX,
            destination_width * source_width <= u32::MAX,
            out@.len() == (y * destination_width) * 4,
            forall|k: int|
                0 <= k < out@.len() ==> #[trigger] out@[k] == downsampled_byte(source@, sw, sh, dw, dh, k),
            sw == source_width,
            sh == source_height,
            dw == destination_width,
            dh == destination_height,
        decreases destination_height - y,
    {
        let mut x: u32 = 0;
        while x < destination_width
            invariant
                y < destination_height,
                x <= destination_width,
                source_width * source_height * 4 <= source@.len(),
                source_width * source_height * 4 <= u32::MAX,
                destination_height * source_height <= u32::MAX,
                destination_width * source_width <= u32::MAX,
                out@.len() == (y * destination_width + x) * 4,
                forall|k: int|
                    0 <= k < out@.len() ==> #[trigger] out@[k] == downsampled_byte(source@, sw, sh, dw, dh, k),
                sw == source_width,
                sh == source_height,
                dw == destination_width,
                dh == destination_height,
            decreases destination_width - x,
        {
            let (b0, b1, b2, b3) = downsample_pixel(
                source,
                source_width,
                source_height,
                destination_width,
                destination_height,
                x,
                y,
            );
            let ghost base = out@.len() as int;
            out.push(b0);
            out.push(b1);
            out.push(b2);
            out.push(b3);
            assert(out@.len() == (y * destination_width + x + 1) * 4);
            assert forall|k: int| 0 <= k < out@.len() implies #[trigger] out@[k] == downsampled_byte(
                source@,
                sw,
                sh,
                dw,
                dh,
                k,
            ) by {
                if k >= base {
                    assert(k == base || k == base + 1 || k == base + 2 || k == base + 3);
                }
            }
            x = x + 1;
        }
        assert((y * destination_width + destination_width) * 4 == ((y + 1) * destination_width) * 4) by (nonlinear_arith);
        y = y + 1;
    }
    assert((destination_height * destination_width) * 4 == destination_width * destination_height * 4) by (nonlinear_arith);
    out
}

/// Pixel `k` of an RGBA image is visible: its alpha is above 16.
pub open spec fn opaque_at(rgba: Seq<u8>, k: int) -> bool {
    rgba[4 * k + 3] > 16
}

/// Some pixel among the first `n` is visible.
pub open spec fn any_opaque(rgba: Seq<u8>, n: int) -> bool {
    exists|k: int| 0 <= k < n && #[trigger] opaque_at(rgba, k)
}

/// `b` = (min x, min y, max x, max y) is the tight bounding box of the
/// visible pixels among the first `n` of a `width`-wide image.
pub open spec fn visible_bounds(rgba: Seq<u8>, width: int, n: int, b: (int, int, int, int)) -> bool {
    &&& forall|k: int|
        0 <= k < n && #[trigger] opaque_at(rgba, k) ==> b.0 <= k % width <= b.2 && b.1 <= k / width
            <= b.3
    &&& exists|k: int| 0 <= k < n && #[trigger] opaque_at(rgba, k) && k % width == b.0
    &&& exists|k: int| 0 <= k < n && #[trigger] opaque_at(rgba, k) && k / width == b.1
    &&& exists|k: int| 0 <= k < n && #[trigger] opaque_at(rgba, k) && k % width == b.2
    &&& exists|k: int| 0 <= k < n && #[trigger] opaque_at(rgba, k) && k / width == b.3
}

/// The square crop (left, top, right, bottom) centred on bounds `b`: as
/// large as their longer side but no larger than the image, kept inside it.
pub open spec fn square_around(width: int, height: int, b: (int, int, int, int)) -> (int, int, int, int) {
    let content_width = b.2 - b.0 + 1;
    let content_height = b.3 - b.1 + 1;
    let longer = if content_width > content_height { content_width } else { content_height };
    let shorter_side = if width < height { width } else { height };
    let size = if longer < shorter_side { longer } else { shorter_side };
    let center_x = (b.0 + b.2 + 1) / 2;
    let center_y = (b.1 + b.3 + 1) / 2;
    let left0 = if center_x > size / 2 { center_x - size / 2 } else { 0 };
    let top0 = if center_y > size / 2 { center_y - size / 2 } else { 0 };
    let left = if left0 < width - size { left0 } else { width - size };
    let top = if top0 < height - size { top0 } else { height - size };
    (left, top, left + size, top + size)
}

proof fn lemma_pixel_coordinates(k: int, width: int, height: int)
    requires
        0 <= k < width * height,
        0 < width,
    ensures
        0 <= k % width < width,
        0 <= k / width < height,
{
    vstd::arithmetic::div_mod::lemma_fundamental_div_mod(k, width);
    vstd::arithmetic::div_mod::lemma_div_pos_is_pos(k, width);
    assert(k / width < height) by (nonlinear_arith)
        requires
            width * (k / width) + k % width == k,
            0 <= k % width,
            k < width * height,
            0 < width,
    ;
}

/// The square of an RGBA image that holds its visible content, centred on
/// it; the whole image when nothing in it is visible.
pub fn visible_square(rgba: &[u8], width: u32, height: u32) -> (r: (usize, usize, usize, usize))
    requires
        rgba@.len() == width * height * 4,
    ensures
        !any_opaque(rgba@, width * height) ==> r == (0usize, 0usize, width as usize, height as usize),
        any_opaque(rgba@, width * height) ==> exists|b: (int, int, int, int)|
            visible_bounds(rgba@, width as int, width * height, b) && square_around(
                width as int,
                height as int,
                b,
            ) == (r.0 as int, r.1 as int, r.2 as int, r.3 as int),
{
    let w = width as usize;
    let h = height as usize;
    let len = rgba.len();
    let n = len / 4;
    let ghost src = rgba@;
    assert(n == width * height);
    let mut min_x = w;
    let mut min_y = h;
    let mut max_x: usize = 0;
    let mut max_y: usize = 0;
    let mut found = false;
    let mut i: usize = 0;
    while i < n
        invariant
            i <= n,
            n == width * height,
            rgba@.len() == n * 4,
            len == rgba@.len(),
            src == rgba@,
            w == width,
            h == height,
            found == any_opaque(src, i as int),
            !found ==> min_x == w && min_y == h && max_x == 0 && max_y == 0,
            found ==> min_x <= max_x < w && min_y <= max_y < h,
            found ==> visible_bounds(src, w as int, i as int, (min_x as int, min_y as int, max_x as int, max_y as int)),
        decreases n - i,
    {
        if rgba[4 * i + 3] > 16 {
            proof {
                lemma_pixel_coordinates(i as int, w as int, h as int);
            }
            let x = i % w;
            let y = i / w;
            let ghost old_b = (min_x as int, min_y as int, max_x as int, max_y as int);
            let ghost was_found = found;
            if !found || x < min_x {
                min_x = x;
            }
            if !found || y < min_y {
                min_y = y;
            }
            if !found || x > max_x {
                max_x = x;
            }
            if !found || y > max_y {
                max_y = y;
            }
            found = true;
            proof {
                let b = (min_x as int, min_y as int, max_x as int, max_y as int);
                let ii = i as int;
                assert(opaque_at(src, ii));
                assert(any_opaque(src, ii + 1));
                assert forall|k: int|
                    0 <= k < ii + 1 && #[trigger] opaque_at(src, k) implies b.0 <= k % (w as int) <= b.2
                    && b.1 <= k / (w as int) <= b.3 by {
                    if k < ii {
                        assert(was_found);
                    }
                }
                if was_found {
                    let k0 = choose|k: int| 0 <= k < ii && #[trigger] opaque_at(src, k) && k % (w as int) == old_b.0;
                    let k1 = choose|k: int| 0 <= k < ii && #[trigger] opaque_at(src, k) && k / (w as int) == old_b.1;
                    let k2 = choose|k: int| 0 <= k < ii && #[trigger] opaque_at(src, k) && k % (w as int) == old_b.2;
                    let k3 = choose|k: int| 0 <= k < ii && #[trigger] opaque_at(src, k) && k / (w as int) == old_b.3;
                    assert(opaque_at(src, k0) && opaque_at(src, k1) && opaque_at(src, k2) && opaque_at(src, k3));
                }
                assert(visible_bounds(src, w as int, ii + 1, b));
            }
        } else {
            proof {
                let ii = i as int;
                assert forall|k: int| 0 <= k < ii + 1 && #[trigger] opaque_at(src, k) implies k < ii by {}
                if found {
                    let b = (min_x as int, min_y as int, max_x as int, max_y as int);
                    let k0 = choose|k: int| 0 <= k < ii && #[trigger] opaque_at(src, k) && k % (w as int) == b.0;
                    let k1 = choose|k: int| 0 <= k < ii && #[trigger] opaque_at(src, k) && k / (w as int) == b.1;
                    let k2 = choose|k: int| 0 <= k < ii && #[trigger] opaque_at(src, k) && k % (w as int) == b.2;
                    let k3 = choose|k: int| 0 <= k < ii && #[trigger] opaque_at(src, k) && k / (w as int) == b.3;
                    assert(opaque_at(src, k0) && opaque_at(src, k1) && opaque_at(src, k2) && opaque_at(src, k3));
                    assert(visible_bounds(src, w as int, ii + 1, b));
                }
            }
        }
        i = i + 1;
    }
    if !found {
        return (0, 0, w, h);
    }
    assert(w <= n) by (nonlinear_arith)
        requires
            n == w * h,
            h >= 1,
    ;
    let content_width = max_x - min_x + 1;
    let content_height = max_y - min_y + 1;
    let longer = if content_width > content_height { content_width } else { content_height };
    let shorter_side = if w < h { w } else { h };
    let size = if longer < shorter_side { longer } else { shorter_side };
    let center_x = (min_x + max_x + 1) / 2;
    let center_y = (min_y + max_y + 1) / 2;
    let left0 = if center_x > size / 2 { center_x - size / 2 } else { 0 };
    let top0 = if center_y > size / 2 { center_y - size / 2 } else { 0 };
    let left = if left0 < w - size { left0 } else { w - size };
    let top = if top0 < h - size { top0 } else { h - size };
    let ghost b = (min_x as int, min_y as int, max_x as int, max_y as int);
    assert(visible_bounds(src, w as int, width * height, b));
    assert(square_around(width as int, height as int, b) == (left as int, top as int, left + size, top + size));
    (left, top, left + size, top + size)
}

/// Downsampling to the same size keeps every visible pixel as it is and
/// turns a fully transparent one into transparent black.
pub proof fn law_same_size_downsample_keeps_pixels(source: Seq<u8>, width: int, height: int, k: int)
    requires
        0 < width,
        0 < height,
        width * height * 4 <= source.len(),
        0 <= k < width * height * 4,
    ensures
        downsampled_byte(source, width, height, width, height, k) == if source[(k / 4) * 4 + 3] == 0
            && k % 4 < 3 {
            0u8
        } else {
            source[k]
        },
{
    let p = k / 4;
    let channel = k % 4;
    vstd::arithmetic::div_mod::lemma_fundamental_div_mod(k, 4);
    vstd::arithmetic::div_mod::lemma_fundamental_div_mod(p, width);
    let y = p / width;
    let x = p % width;
    assert(0 <= p < width * height) by (nonlinear_arith)
        requires
            k == 4 * p + channel,
            0 <= channel < 4,
            0 <= k < width * height * 4,
    ;
    lemma_pixel_coordinates(p, width, height);
    vstd::arithmetic::div_mod::lemma_fundamental_div_mod_converse(y * height, height, y, 0);
    vstd::arithmetic::div_mod::lemma_fundamental_div_mod_converse((y + 1) * height, height, y + 1, 0);
    vstd::arithmetic::div_mod::lemma_fundamental_div_mod_converse(x * width, width, x, 0);
    vstd::arithmetic::div_mod::lemma_fundamental_div_mod_converse((x + 1) * width, width, x + 1, 0);
    assert(box_start(y, height, height) == y);
    assert(box_end(y, height, height) == y + 1);
    assert(box_start(x, width, width) == x);
    assert(box_end(x, width, width) == x + 1);
    assert(y * width + x == p) by (nonlinear_arith)
        requires
            p == width * y + x,
    ;
    assert((y * width + x) * 4 + channel == k);
    assert(box_count(y, y + 1, x, x + 1) == 1) by (nonlinear_arith)
        requires
            box_count(y, y + 1, x, x + 1) == (if y + 1 > y { y + 1 - y } else { 0 }) * (if x + 1 > x { x + 1 - x } else { 0 }),
    ;
    let a = source[p * 4 + 3];
    assert forall|ch: int| 0 <= ch < 4 implies #[trigger] box_sum(source, width, y, y + 1, x, x + 1, ch)
        == pixel_term(source, width, y, x, ch) by {
        assert(box_sum(source, width, y, y, x, x + 1, ch) == 0);
        assert(row_sum(source, width, y, x, x, ch) == 0);
        assert(row_sum(source, width, y, x, x + 1, ch) == pixel_term(source, width, y, x, ch));
    }
    assert(box_sum(source, width, y, y + 1, x, x + 1, 3) == a);
    if channel < 3 {
        let c = source[k];
        assert(box_sum(source, width, y, y + 1, x, x + 1, channel) == c * a);
        if a > 0 {
            vstd::arithmetic::div_mod::lemma_fundamental_div_mod_converse(c * a + a / 2, a as int, c as int, (a / 2) as int);
        }
    }
}

proof fn lemma_disc_row_max_bounds(mask: Seq<u8>, w: int, h: int, r: int, x: int, y: int, oy: int, hi: int, ox: int)
    requires
        -r <= ox < hi,
    ensures
        disc_row_max(mask, w, h, r, x, y, oy, hi) >= disc_sample(mask, w, h, r, x, y, ox, oy),
    decreases hi + r,
{
    if ox < hi - 1 {
        lemma_disc_row_max_bounds(mask, w, h, r, x, y, oy, hi - 1, ox);
    }
}

proof fn lemma_disc_max_bounds(mask: Seq<u8>, w: int, h: int, r: int, x: int, y: int, hi: int, oy: int)
    requires
        -r <= oy < hi,
    ensures
        disc_max(mask, w, h, r, x, y, hi) >= disc_row_max(mask, w, h, r, x, y, oy, r + 1),
    decreases hi + r,
{
    if oy < hi - 1 {
        lemma_disc_max_bounds(mask, w, h, r, x, y, hi - 1, oy);
    }
}

/// Dilation never lowers a pixel of the mask; dilating by a radius of 0
/// leaves it as it was.
pub proof fn law_dilation_keeps_or_raises_pixels(mask: Seq<u8>, width: int, height: int, radius: int, x: int, y: int)
    requires
        0 <= radius,
        0 <= x < width,
        0 <= y < height,
    ensures
        dilated(mask, width, height, radius, x, y) >= mask[y * width + x],
        radius == 0 ==> dilated(mask, width, height, radius, x, y) == mask[y * width + x],
{
    assert(disc_sample(mask, width, height, radius, x, y, 0, 0) == mask[y * width + x]) by {
        assert(0int * 0int + 0int * 0int <= radius * radius) by (nonlinear_arith)
            requires
                0 <= radius,
        ;
    }
    lemma_disc_row_max_bounds(mask, width, height, radius, x, y, 0, radius + 1, 0);
    lemma_disc_max_bounds(mask, width, height, radius, x, y, radius + 1, 0);
    if radius == 0 {
        assert(disc_row_max(mask, width, height, 0, x, y, 0, 0) == 0);
        assert(disc_max(mask, width, height, 0, x, y, 0) == 0);
    }
}

/// Drawing an opaque colour covers the pixel with exactly that colour and
/// leaves every other byte of the canvas as it was.
pub proof fn law_opaque_paint_covers(w: int, h: int, px: Seq<u8>, x: int, y: int, color: Seq<u8>)
    requires
        0 <= x < w,
        0 <= y < h,
        px.len() == w * h * 4,
        color.len() == 4,
        color[3] == 255,
    ensures
        forall|k: int|
            0 <= k < px.len() ==> #[trigger] blend_pixels(w, h, px, x, y, color)[k] == if (y * w + x)
                * 4 <= k < (y * w + x) * 4 + 4 {
                color[k - (y * w + x) * 4]
            } else {
                px[k]
            },
        blend_pixels(w, h, px, x, y, color).len() == px.len(),
{
    let i = (y * w + x) * 4;
    assert(i + 4 <= px.len()) by (nonlinear_arith)
        requires
            0 <= x < w,
            0 <= y < h,
            i == (y * w + x) * 4,
            px.len() == w * h * 4,
    ;
    assert(0 <= i) by (nonlinear_arith)
        requires
            0 <= x,
            0 <= y,
            0 < w,
            i == (y * w + x) * 4,
    ;
    let da = px[i + 3] as int;
    assert(da * (255 - 255) == 0) by (nonlinear_arith);
    assert(blended_alpha(255, da) == 255);
    assert forall|c: u8, d: u8| #[trigger] blended_channel(c, d, 255, da, 255) == c by {
        assert(d * da * (255 - 255int) == 0) by (nonlinear_arith);
        vstd::arithmetic::div_mod::lemma_fundamental_div_mod_converse(c * 255 + 127, 255, c as int, 127);
    }
}

} // verus!
