//! Colours, and the pixels of a decoded image.

use vstd::prelude::*;

verus! {

/// A colour of the display: one of seven by name, or any by its parts.
#[derive(Debug, Clone, Copy, PartialEq, Eq, Structural)]
pub enum Color {
    Gray,
    Red,
    Green,
    Blue,
    Yellow,
    Cyan,
    Magenta,
    Rgb(u8, u8, u8),
}

/// The brightness below which [`Color::to_bw`] gives black where it is told no other.
pub const DEFAULT_THRESHOLD: u8 = 128;

/// The brightness of a colour with these parts: a weighted mean of 77, 150
/// and 29 parts in 256 of red, green and blue.
pub open spec fn luma(r: u8, g: u8, b: u8) -> u8 {
    ((77 * r + 150 * g + 29 * b) / 256) as u8
}

impl Color {
    /// The red, green and blue parts of the colour.
    pub open spec fn parts(self) -> (u8, u8, u8) {
        match self {
            Color::Gray => (0x22, 0x22, 0x22),
            Color::Red => (0xFF, 0, 0),
            Color::Green => (0, 0xFF, 0),
            Color::Blue => (0, 0, 0xFF),
            Color::Yellow => (0xFF, 0xFF, 0),
            Color::Cyan => (0, 0xFF, 0xFF),
            Color::Magenta => (0xFF, 0, 0xFF),
            Color::Rgb(r, g, b) => (r, g, b),
        }
    }

    /// The colour as the framebuffer holds it: `0x00RRGGBB`.
    pub open spec fn packed(self) -> u32 {
        (self.parts().0 * 0x1_0000 + self.parts().1 * 0x100 + self.parts().2) as u32
    }

    /// The brightness of the colour.
    pub open spec fn brightness(self) -> u8 {
        luma(self.parts().0, self.parts().1, self.parts().2)
    }

    /// Black.
    pub fn black() -> (c: Color)
        ensures
            c == Color::Rgb(0, 0, 0),
    {
        Color::Rgb(0, 0, 0)
    }

    /// White.
    pub fn white() -> (c: Color)
        ensures
            c == Color::Rgb(255, 255, 255),
    {
        Color::Rgb(255, 255, 255)
    }

    /// The red, green and blue parts of the colour.
    pub fn rgb(self) -> (p: (u8, u8, u8))
        ensures
            p == self.parts(),
    {
        match self {
            Color::Gray => (0x22, 0x22, 0x22),
            Color::Red => (0xFF, 0, 0),
            Color::Green => (0, 0xFF, 0),
            Color::Blue => (0, 0, 0xFF),
            Color::Yellow => (0xFF, 0xFF, 0),
            Color::Cyan => (0, 0xFF, 0xFF),
            Color::Magenta => (0xFF, 0, 0xFF),
            Color::Rgb(r, g, b) => (r, g, b),
        }
    }

    /// The colour as the framebuffer holds it: `0x00RRGGBB`.
    pub fn hex(self) -> (v: u32)
        ensures
            v == self.packed(),
    {
        let (r, g, b) = self.rgb();
        assert((((r as u32) << 16) | ((g as u32) << 8) | (b as u32)) == r * 0x1_0000 + g * 0x100
            + b) by (bit_vector);
        ((r as u32) << 16) | ((g as u32) << 8) | (b as u32)
    }

    /// The brightness of the colour.
    fn gray_level(self) -> (level: u8)
        ensures
            level == self.brightness(),
    {
        let (r, g, b) = self.rgb();
        let sum: u16 = 77u16 * r as u16 + 150u16 * g as u16 + 29u16 * b as u16;
        assert(sum >> 8 == sum / 256) by (bit_vector);
        (sum >> 8) as u8
    }

    /// The gray of the same brightness.
    pub fn to_grayscale(self) -> (c: Color)
        ensures
            c == Color::Rgb(self.brightness(), self.brightness(), self.brightness()),
    {
        let gray = self.gray_level();
        Color::Rgb(gray, gray, gray)
    }

    /// White where the colour is at least as bright as `threshold`, or as
    /// [`DEFAULT_THRESHOLD`] where none is given; black otherwise.
    pub fn to_bw(self, threshold: Option<u8>) -> (c: Color)
        ensures
            c == if self.brightness() >= (match threshold {
                Some(t) => t,
                None => DEFAULT_THRESHOLD,
            }) {
                Color::Rgb(255, 255, 255)
            } else {
                Color::Rgb(0, 0, 0)
            },
    {
        let t = match threshold {
            Some(t) => t,
            None => DEFAULT_THRESHOLD,
        };
        self.to_two_tone(Color::white(), Color::black(), t)
    }

    /// `upper` where the colour is at least as bright as `threshold`, `lower` otherwise.
    pub fn to_two_tone(self, upper: Color, lower: Color, threshold: u8) -> (c: Color)
        ensures
            c == if self.brightness() >= threshold {
                upper
            } else {
                lower
            },
    {
        if self.gray_level() >= threshold {
            upper
        } else {
            lower
        }
    }

    /// The complement: every part taken from 255.
    pub fn invert(self) -> (c: Color)
        ensures
            c == Color::Rgb(
                (255 - self.parts().0) as u8,
                (255 - self.parts().1) as u8,
                (255 - self.parts().2) as u8,
            ),
    {
        let (r, g, b) = self.rgb();
        Color::Rgb(255 - r, 255 - g, 255 - b)
    }
}

impl Default for Color {
    fn default() -> (c: Color)
        ensures
            c == Color::Gray,
    {
        Color::Gray
    }
}

/// How the bytes of a decoded image make up its pixels.
#[derive(Debug, Clone, Copy, PartialEq, Eq, Structural)]
pub enum PixelLayout {
    /// Three bytes: red, green, blue.
    Rgb,
    /// Four bytes: red, green, blue, alpha.
    Rgba,
    /// One byte of gray.
    Luma,
}

impl PixelLayout {
    /// The number of bytes of a pixel.
    pub open spec fn width(self) -> int {
        match self {
            PixelLayout::Rgb => 3,
            PixelLayout::Rgba => 4,
            PixelLayout::Luma => 1,
        }
    }

    /// The number of bytes of a pixel.
    pub fn size(self) -> (n: usize)
        ensures
            n == self.width(),
    {
        match self {
            PixelLayout::Rgb => 3,
            PixelLayout::Rgba => 4,
            PixelLayout::Luma => 1,
        }
    }
}

/// The colour of the pixel whose bytes start at `index`: its red, green and
/// blue bytes, or its gray for all three. Alpha is not looked at.
pub open spec fn pixel_color(buffer: Seq<u8>, index: int, layout: PixelLayout) -> Color {
    match layout {
        PixelLayout::Luma => Color::Rgb(buffer[index], buffer[index], buffer[index]),
        _ => Color::Rgb(buffer[index], buffer[index + 1], buffer[index + 2]),
    }
}

/// The colour of the pixel whose bytes start at `index` of `buffer`; `None`
/// where the pixel does not lie in `buffer`.
pub fn pixel_at(buffer: &[u8], index: usize, layout: PixelLayout) -> (c: Option<Color>)
    ensures
        index + layout.width() <= buffer@.len() ==> c == Some(
            pixel_color(buffer@, index as int, layout),
        ),
        index + layout.width() > buffer@.len() ==> c is None,
{
    let size = layout.size();
    if buffer.len() < size || index > buffer.len() - size {
        return None;
    }
    match layout {
        PixelLayout::Luma => {
            let gray = buffer[index];
            Some(Color::Rgb(gray, gray, gray))
        },
        _ => Some(Color::Rgb(buffer[index], buffer[index + 1], buffer[index + 2])),
    }
}

/// The place in the source image of the byte that lands at `i` in an image
/// scaled to `dst_w` by `dst_h` pixels of `channels` bytes: the byte of the
/// same channel of the nearest pixel up and to the left, at
/// `(x * src_w / dst_w, y * src_h / dst_h)`.
pub open spec fn nn_source(
    src_w: int,
    src_h: int,
    dst_w: int,
    dst_h: int,
    channels: int,
    i: int,
) -> int {
    let pixel = i / channels;
    let x = pixel % dst_w;
    let y = pixel / dst_w;
    ((y * src_h / dst_h) * src_w + x * src_w / dst_w) * channels + i % channels
}

/// Where the byte `c` of the pixel `(x, y)` lies in the scaled image and
/// where it comes from.
proof fn lemma_nn_place(
    src_w: int,
    src_h: int,
    dst_w: int,
    dst_h: int,
    channels: int,
    x: int,
    y: int,
    c: int,
)
    requires
        0 <= x < dst_w,
        0 <= y < dst_h,
        0 <= c < channels,
        0 < src_w,
        0 < src_h,
    ensures
        0 <= y * src_h <= dst_h * src_h,
        0 <= x * src_w <= dst_w * src_w,
        0 <= y * src_h / dst_h < src_h,
        0 <= x * src_w / dst_w < src_w,
        0 <= (y * src_h / dst_h) * src_w,
        (y * src_h / dst_h) * src_w + x * src_w / dst_w < src_w * src_h <= src_w * src_h * channels,
        0 <= ((y * src_h / dst_h) * src_w + x * src_w / dst_w) * channels,
        ((y * src_h / dst_h) * src_w + x * src_w / dst_w) * channels + c < src_w * src_h * channels,
        0 <= (y * dst_w + x) * channels + c < dst_w * dst_h * channels,
        nn_source(src_w, src_h, dst_w, dst_h, channels, (y * dst_w + x) * channels + c) == ((y
            * src_h / dst_h) * src_w + x * src_w / dst_w) * channels + c,
{
    let sy = y * src_h / dst_h;
    let sx = x * src_w / dst_w;
    assert(0 <= y * src_h < dst_h * src_h) by (nonlinear_arith)
        requires
            0 <= y < dst_h,
            0 < src_h,
    ;
    assert(0 <= x * src_w < dst_w * src_w) by (nonlinear_arith)
        requires
            0 <= x < dst_w,
            0 < src_w,
    ;
    vstd::arithmetic::div_mod::lemma_multiply_divide_lt(y * src_h, dst_h, src_h);
    vstd::arithmetic::div_mod::lemma_multiply_divide_lt(x * src_w, dst_w, src_w);
    assert(0 <= sy && 0 <= sx) by (nonlinear_arith)
        requires
            sy == y * src_h / dst_h,
            sx == x * src_w / dst_w,
            0 <= y * src_h,
            0 <= x * src_w,
            0 < dst_h,
            0 < dst_w,
    ;
    let from = sy * src_w + sx;
    assert(0 <= sy * src_w && from + 1 <= src_w * src_h) by (nonlinear_arith)
        requires
            from == sy * src_w + sx,
            0 <= sy < src_h,
            0 <= sx < src_w,
    ;
    assert(src_w * src_h <= src_w * src_h * channels) by (nonlinear_arith)
        requires
            0 <= src_w * src_h,
            1 <= channels,
    ;
    assert(0 <= from * channels && from * channels + c < src_w * src_h * channels)
        by (nonlinear_arith)
        requires
            0 <= from,
            from + 1 <= src_w * src_h,
            0 <= c < channels,
    ;
    let pixel = y * dst_w + x;
    assert(0 <= pixel && pixel + 1 <= dst_w * dst_h) by (nonlinear_arith)
        requires
            pixel == y * dst_w + x,
            0 <= y < dst_h,
            0 <= x < dst_w,
    ;
    assert(0 <= pixel * channels && pixel * channels + c < dst_w * dst_h * channels)
        by (nonlinear_arith)
        requires
            0 <= pixel,
            pixel + 1 <= dst_w * dst_h,
            0 <= c < channels,
    ;
    vstd::arithmetic::div_mod::lemma_fundamental_div_mod_converse(
        pixel * channels + c,
        channels,
        pixel,
        c,
    );
    vstd::arithmetic::div_mod::lemma_fundamental_div_mod_converse(pixel, dst_w, y, x);
}

/// Scales an image by taking for every pixel the nearest one of the source:
/// the image of `src_w` by `src_h` pixels in `src` is written, `dst_w` by
/// `dst_h` pixels large, to the front of `dst`. What `dst` holds behind the
/// image stays. A source without pixels can only be scaled to an image
/// without bytes.
pub fn scale_nn_fast(
    src: &[u8],
    src_w: usize,
    src_h: usize,
    dst_w: usize,
    dst_h: usize,
    channels: usize,
    dst: &mut Vec<u8>,
)
    requires
        dst_w * dst_h * channels > 0 ==> 0 < src_w && 0 < src_h,
        src_w * src_h * channels <= src@.len(),
        dst_w * dst_h * channels <= old(dst)@.len(),
        dst_w * src_w <= usize::MAX,
        dst_h * src_h <= usize::MAX,
    ensures
        final(dst)@.len() == old(dst)@.len(),
        forall|i: int|
            0 <= i < dst_w * dst_h * channels ==> #[trigger] final(dst)@[i] == src@[nn_source(
                src_w as int,
                src_h as int,
                dst_w as int,
                dst_h as int,
                channels as int,
                i,
            )],
        forall|i: int|
            dst_w * dst_h * channels <= i < old(dst)@.len() ==> #[trigger] final(dst)@[i] == old(
                dst,
            )@[i],
{
    let total = src.len();
    let room = dst.len();
    let mut at: usize = 0;
    let mut y: usize = 0;
    while y < dst_h
        invariant
            dst_w * dst_h * channels > 0 ==> 0 < src_w && 0 < src_h,
            0 <= y <= dst_h,
            at == y * dst_w * channels,
            total == src@.len(),
            room == dst@.len(),
            room == old(dst)@.len(),
            src_w * src_h * channels <= total,
            dst_w * dst_h * channels <= room,
            dst_w * src_w <= usize::MAX,
            dst_h * src_h <= usize::MAX,
            forall|i: int|
                0 <= i < at ==> #[trigger] dst@[i] == src@[nn_source(
                    src_w as int,
                    src_h as int,
                    dst_w as int,
                    dst_h as int,
                    channels as int,
                    i,
                )],
            forall|i: int| at <= i < room ==> #[trigger] dst@[i] == old(dst)@[i],
        decreases dst_h - y,
    {
        let mut x: usize = 0;
        while x < dst_w
            invariant
                dst_w * dst_h * channels > 0 ==> 0 < src_w && 0 < src_h,
                0 <= y < dst_h,
                0 <= x <= dst_w,
                at == (y * dst_w + x) * channels,
                total == src@.len(),
                room == dst@.len(),
                room == old(dst)@.len(),
                src_w * src_h * channels <= total,
                dst_w * dst_h * channels <= room,
                dst_w * src_w <= usize::MAX,
                dst_h * src_h <= usize::MAX,
                forall|i: int|
                    0 <= i < at ==> #[trigger] dst@[i] == src@[nn_source(
                        src_w as int,
                        src_h as int,
                        dst_w as int,
                        dst_h as int,
                        channels as int,
                        i,
                    )],
                forall|i: int| at <= i < room ==> #[trigger] dst@[i] == old(dst)@[i],
            decreases dst_w - x,
        {
            let mut c: usize = 0;
            while c < channels
                invariant
                    dst_w * dst_h * channels > 0 ==> 0 < src_w && 0 < src_h,
                    0 <= y < dst_h,
                    0 <= x < dst_w,
                    0 <= c <= channels,
                    at == (y * dst_w + x) * channels + c,
                    total == src@.len(),
                    room == dst@.len(),
                    room == old(dst)@.len(),
                    src_w * src_h * channels <= total,
                    dst_w * dst_h * channels <= room,
                    dst_w * src_w <= usize::MAX,
                    dst_h * src_h <= usize::MAX,
                    forall|i: int|
                        0 <= i < at ==> #[trigger] dst@[i] == src@[nn_source(
                            src_w as int,
                            src_h as int,
                            dst_w as int,
                            dst_h as int,
                            channels as int,
                            i,
                        )],
                    forall|i: int| at <= i < room ==> #[trigger] dst@[i] == old(dst)@[i],
                decreases channels - c,
            {
                proof {
                    assert(dst_w * dst_h * channels > 0) by (nonlinear_arith)
                        requires
                            y < dst_h,
                            x < dst_w,
                            c < channels,
                    ;
                    lemma_nn_place(
                        src_w as int,
                        src_h as int,
                        dst_w as int,
                        dst_h as int,
                        channels as int,
                        x as int,
                        y as int,
                        c as int,
                    );
                }
                let sy = y * src_h / dst_h;
                let sx = x * src_w / dst_w;
                let from = (sy * src_w + sx) * channels + c;
                dst[at] = src[from];
                at = at + 1;
                c = c + 1;
            }
            x = x + 1;
            assert((y * dst_w + (x - 1)) * channels + channels == (y * dst_w + x) * channels)
                by (nonlinear_arith);
        }
        y = y + 1;
        assert(((y - 1) * dst_w + dst_w) * channels == y * dst_w * channels) by (nonlinear_arith);
    }
    assert(at == dst_w * dst_h * channels) by (nonlinear_arith)
        requires
            at == y * dst_w * channels,
            y == dst_h,
    ;
}

} // verus!
