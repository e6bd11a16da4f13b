//! The framebuffer of the display and what is drawn into it.

use crate::pixel::{pixel_at, pixel_color, Color, PixelLayout};
use vstd::prelude::*;

verus! {

/// Why the display could not be opened or drawn to.
#[derive(Debug, Clone, Copy, PartialEq, Eq, Structural)]
pub enum DisplayError {
    /// The display offers no mode.
    NoDisplayModes,
    /// A pixel at `(x, y)` lies outside the frame it was drawn into.
    DrawError { x: usize, y: usize },
}

/// The size of a picture that is drawn in the middle of the display.
#[derive(Debug, Clone, Copy, PartialEq, Eq, Structural)]
pub struct Frame {
    pub width: usize,
    pub height: usize,
}

/// A display as the contracts see it.
#[verifier::ext_equal]
pub struct DisplayView {
    /// The pixels of the framebuffer, row after row, each `0x00RRGGBB`.
    pub pixels: Seq<u32>,
    /// The number of pixels in a row.
    pub width: int,
    /// The number of rows.
    pub height: int,
}

impl DisplayView {
    /// The frame that fills the display.
    pub open spec fn frame(self) -> Frame {
        Frame { width: self.width as usize, height: self.height as usize }
    }
}

/// The place in the framebuffer of the pixel `(x, y)` of a frame that stands
/// in the middle of the display.
pub open spec fn plot_offset(d: DisplayView, frame: Frame, x: int, y: int) -> int {
    ((d.height - frame.height) / 2 + y) * d.width + (d.width - frame.width) / 2 + x
}

/// The pixels with `color` at `offset`; unchanged where `offset` lies
/// outside of them.
pub open spec fn plotted(pixels: Seq<u32>, offset: int, color: u32) -> Seq<u32> {
    if 0 <= offset < pixels.len() {
        pixels.update(offset, color)
    } else {
        pixels
    }
}

/// The pixels after `content` is drawn, one `(x, y, colour)` after the other,
/// and how drawing ends: at the first that lies outside the frame drawing
/// stops with a `DrawError`, and what was drawn before it stays.
pub open spec fn drawn(d: DisplayView, content: Seq<(usize, usize, Color)>, frame: Frame) -> (
    Seq<u32>,
    Result<(), DisplayError>,
)
    decreases content.len(),
{
    if content.len() == 0 {
        (d.pixels, Ok(()))
    } else {
        let (x, y, color) = content.first();
        if x >= frame.width || y >= frame.height {
            (d.pixels, Err(DisplayError::DrawError { x, y }))
        } else {
            drawn(
                DisplayView {
                    pixels: plotted(d.pixels, plot_offset(d, frame, x as int, y as int), color.packed()),
                    ..d
                },
                content.drop_first(),
                frame,
            )
        }
    }
}

/// The colour that is shown for `color`: with `two_tone`, gray where it is
/// at least as bright as 160 and white where it is not.
pub open spec fn shown(color: Color, two_tone: bool) -> Color {
    if two_tone {
        if color.brightness() >= TWO_TONE_THRESHOLD {
            Color::Gray
        } else {
            Color::Rgb(255, 255, 255)
        }
    } else {
        color
    }
}

/// The brightness at which the two tones part.
pub const TWO_TONE_THRESHOLD: u8 = 160;

/// The pixels of an image of the size of `frame`, row after row: each with
/// its place and the colour that is shown for it.
pub open spec fn image_content(
    buffer: Seq<u8>,
    layout: PixelLayout,
    two_tone: bool,
    frame: Frame,
) -> Seq<(usize, usize, Color)> {
    Seq::new(
        (frame.width * frame.height) as nat,
        |k: int|
            (
                (k % (frame.width as int)) as usize,
                (k / (frame.width as int)) as usize,
                shown(pixel_color(buffer, k * layout.width(), layout), two_tone),
            ),
    )
}

/// Whether `a` comes before `b`: by width, then by height.
pub open spec fn smaller(a: (usize, usize), b: (usize, usize)) -> bool {
    a.0 < b.0 || (a.0 == b.0 && a.1 < b.1)
}

/// The mode to run the display in: the smallest of `resolutions`, by width
/// and then by height, and of several that small the first. `None` where
/// there is no mode.
pub fn select_mode(resolutions: &[(usize, usize)]) -> (r: Option<usize>)
    ensures
        resolutions@.len() == 0 <==> r is None,
        r matches Some(i) ==> {
            &&& i < resolutions@.len()
            &&& forall|j: int| 0 <= j < resolutions@.len() ==> !smaller(resolutions@[j], resolutions@[i as int])
            &&& forall|j: int| 0 <= j < i ==> smaller(resolutions@[i as int], resolutions@[j])
        },
{
    if resolutions.len() == 0 {
        return None;
    }
    let mut best: usize = 0;
    let mut i: usize = 1;
    while i < resolutions.len()
        invariant
            1 <= i <= resolutions@.len(),
            best < i,
            forall|j: int| 0 <= j < i ==> !smaller(resolutions@[j], resolutions@[best as int]),
            forall|j: int| 0 <= j < best ==> smaller(resolutions@[best as int], resolutions@[j]),
        decreases resolutions@.len() - i,
    {
        let (w, h) = resolutions[i];
        let (bw, bh) = resolutions[best];
        if w < bw || (w == bw && h < bh) {
            best = i;
        }
        i = i + 1;
    }
    Some(best)
}

/// The framebuffer of the display, with the size of the mode it runs in.
#[derive(Debug)]
pub struct Display<'a> {
    framebuffer: &'a mut [u32],
    width: usize,
    height: usize,
}

impl<'a> View for Display<'a> {
    type V = DisplayView;

    closed spec fn view(&self) -> DisplayView {
        DisplayView {
            pixels: self.framebuffer@,
            width: self.width as int,
            height: self.height as int,
        }
    }
}

impl<'a> Display<'a> {
    /// The display over `framebuffer`, which holds a mode of `width` by
    /// `height` pixels.
    pub fn from_buffer(framebuffer: &'a mut [u32], width: usize, height: usize) -> (d: Self)
        ensures
            d@.pixels == old(framebuffer)@,
            d@.width == width,
            d@.height == height,
    {
        Display { framebuffer, width, height }
    }

    /// The number of pixels in a row.
    pub fn width(&self) -> (w: usize)
        ensures
            w == self@.width,
    {
        self.width
    }

    /// The number of rows.
    pub fn height(&self) -> (h: usize)
        ensures
            h == self@.height,
    {
        self.height
    }

    /// The number of pixels in the framebuffer.
    pub fn len(&self) -> (n: usize)
        ensures
            n == self@.pixels.len(),
    {
        self.framebuffer.len()
    }

    /// The pixel at `offset` of the framebuffer, if there is one.
    pub fn pixel(&self, offset: usize) -> (p: Option<u32>)
        ensures
            offset < self@.pixels.len() ==> p == Some(self@.pixels[offset as int]),
            offset >= self@.pixels.len() ==> p is None,
    {
        if offset < self.framebuffer.len() {
            Some(self.framebuffer[offset])
        } else {
            None
        }
    }

    /// The frame that fills the display.
    pub fn as_frame(&self) -> (frame: Frame)
        ensures
            frame == self@.frame(),
            frame.width == self@.width,
            frame.height == self@.height,
    {
        Frame { width: self.width, height: self.height }
    }

    /// Fills the framebuffer with the default colour.
    pub fn clear(&mut self)
        ensures
            final(self)@.width == old(self)@.width,
            final(self)@.height == old(self)@.height,
            final(self)@.pixels.len() == old(self)@.pixels.len(),
            forall|i: int|
                0 <= i < final(self)@.pixels.len() ==> final(self)@.pixels[i]
                    == Color::Gray.packed(),
    {
        let fill = Color::default().hex();
        let mut i: usize = 0;
        while i < self.framebuffer.len()
            invariant
                i <= self.framebuffer@.len(),
                self.width == old(self).width,
                self.height == old(self).height,
                self.framebuffer@.len() == old(self).framebuffer@.len(),
                fill == Color::Gray.packed(),
                forall|k: int| 0 <= k < i ==> self.framebuffer@[k] == fill,
            decreases self.framebuffer@.len() - i,
        {
            self.framebuffer[i] = fill;
            i = i + 1;
        }
    }

    /// Puts `color` at the place of the pixel `(x, y)` of `frame`, if that
    /// place is in the framebuffer.
    fn plot(&mut self, x: usize, y: usize, color: Color, frame: Frame)
        requires
            frame.width <= old(self).width,
            frame.height <= old(self).height,
            x < frame.width,
            y < frame.height,
        ensures
            final(self)@.width == old(self)@.width,
            final(self)@.height == old(self)@.height,
            final(self)@.pixels == plotted(
                old(self)@.pixels,
                plot_offset(old(self)@, frame, x as int, y as int),
                color.packed(),
            ),
    {
        let row = (self.height - frame.height) / 2 + y;
        let column = (self.width - frame.width) / 2 + x;
        let ghost target = plot_offset(self@, frame, x as int, y as int);
        assert(target == row * self.width + column);
        assert(0 <= row * self.width) by (nonlinear_arith)
            requires
                0 <= row,
                0 <= self.width,
        ;
        let place = match row.checked_mul(self.width) {
            Some(start) => start.checked_add(column),
            None => None,
        };
        assert(match place {
            Some(p) => p == target,
            None => target > usize::MAX,
        });
        let len = self.framebuffer.len();
        match place {
            Some(p) => {
                if p < len {
                    self.framebuffer[p] = color.hex();
                }
            },
            None => {},
        }
    }

    /// Draws `content`, one `(x, y, colour)` after the other, into `frame`,
    /// which stands in the middle of the display.
    ///
    /// Stops with a `DrawError` at the first pixel that lies outside `frame`;
    /// what was drawn before it stays. A pixel of the frame whose place lies
    /// outside the framebuffer is passed over.
    pub fn draw(&mut self, content: &[(usize, usize, Color)], frame: Frame) -> (r: Result<
        (),
        DisplayError,
    >)
        requires
            frame.width <= old(self)@.width,
            frame.height <= old(self)@.height,
        ensures
            final(self)@.width == old(self)@.width,
            final(self)@.height == old(self)@.height,
            final(self)@.pixels == drawn(old(self)@, content@, frame).0,
            r == drawn(old(self)@, content@, frame).1,
    {
        let mut i: usize = 0;
        assert(content@.skip(0) =~= content@);
        while i < content.len()
            invariant
                i <= content@.len(),
                frame.width <= self@.width,
                frame.height <= self@.height,
                self@.width == old(self)@.width,
                self@.height == old(self)@.height,
                drawn(old(self)@, content@, frame) == drawn(self@, content@.skip(i as int), frame),
            decreases content@.len() - i,
        {
            let (x, y, color) = content[i];
            proof {
                assert(content@.skip(i as int).first() == content@[i as int]);
                assert(content@.skip(i as int).drop_first() =~= content@.skip(i + 1));
            }
            if x >= frame.width || y >= frame.height {
                return Err(DisplayError::DrawError { x, y });
            }
            self.plot(x, y, color, frame);
            i = i + 1;
        }
        Ok(())
    }

    /// Draws the image in `buffer`, which has the size of `frame` and whose
    /// pixels follow each other row after row, into `frame`. With `two_tone`
    /// every pixel is shown in one of two tones, by its brightness.
    pub fn draw_image(
        &mut self,
        buffer: &[u8],
        layout: PixelLayout,
        two_tone: bool,
        frame: Frame,
    )
        requires
            frame.width <= old(self)@.width,
            frame.height <= old(self)@.height,
            frame.width * frame.height * layout.width() <= buffer@.len(),
        ensures
            final(self)@.width == old(self)@.width,
            final(self)@.height == old(self)@.height,
            final(self)@.pixels == drawn(
                old(self)@,
                image_content(buffer@, layout, two_tone, frame),
                frame,
            ).0,
    {
        let ghost content = image_content(buffer@, layout, two_tone, frame);
        let size = layout.size();
        let total = buffer.len();
        let mut index: usize = 0;
        let mut y: usize = 0;
        let ghost mut k: int = 0;
        assert(content.skip(0) =~= content);
        while y < frame.height
            invariant
                y <= frame.height,
                k == y * frame.width,
                index == k * size,
                size == layout.width(),
                total == buffer@.len(),
                content == image_content(buffer@, layout, two_tone, frame),
                frame.width <= self@.width,
                frame.height <= self@.height,
                frame.width * frame.height * layout.width() <= buffer@.len(),
                self@.width == old(self)@.width,
                self@.height == old(self)@.height,
                drawn(old(self)@, content, frame).0 == drawn(self@, content.skip(k), frame).0,
            decreases frame.height - y,
        {
            let mut x: usize = 0;
            while x < frame.width
                invariant
                    y < frame.height,
                    x <= frame.width,
                    k == y * frame.width + x,
                    index == k * size,
                    size == layout.width(),
                    total == buffer@.len(),
                    content == image_content(buffer@, layout, two_tone, frame),
                    frame.width <= self@.width,
                    frame.height <= self@.height,
                    frame.width * frame.height * layout.width() <= buffer@.len(),
                    self@.width == old(self)@.width,
                    self@.height == old(self)@.height,
                    drawn(old(self)@, content, frame).0 == drawn(self@, content.skip(k), frame).0,
                decreases frame.width - x,
            {
                proof {
                    lemma_pixel_place(frame, x as int, y as int, layout.width());
                    assert(index + size <= frame.width * frame.height * layout.width());
                    assert(content.skip(k).first() == content[k]);
                    assert(content.skip(k).drop_first() =~= content.skip(k + 1));
                }
                let color = match pixel_at(buffer, index, layout) {
                    Some(c) => c,
                    None => Color::Gray,
                };
                let color = if two_tone {
                    color.to_two_tone(Color::Gray, Color::white(), TWO_TONE_THRESHOLD)
                } else {
                    color
                };
                self.plot(x, y, color, frame);
                x = x + 1;
                index = index + size;
                proof {
                    k = k + 1;
                    assert((k - 1) * size + size == k * size) by (nonlinear_arith);
                }
            }
            y = y + 1;
            assert(k == y * frame.width) by (nonlinear_arith)
                requires
                    k == (y - 1) * frame.width + frame.width,
            ;
        }
        proof {
            assert(k == frame.width * frame.height) by (nonlinear_arith)
                requires
                    k == frame.height * frame.width,
            ;
            assert(content.skip(k) =~= Seq::<(usize, usize, Color)>::empty());
        }
    }
}

/// Drawing changes no size: the framebuffer holds as many pixels as before.
pub proof fn lemma_drawn_len(d: DisplayView, content: Seq<(usize, usize, Color)>, frame: Frame)
    ensures
        drawn(d, content, frame).0.len() == d.pixels.len(),
    decreases content.len(),
{
    if content.len() > 0 {
        let (x, y, color) = content.first();
        if x < frame.width && y < frame.height {
            lemma_drawn_len(
                DisplayView {
                    pixels: plotted(d.pixels, plot_offset(d, frame, x as int, y as int), color.packed()),
                    ..d
                },
                content.drop_first(),
                frame,
            );
        }
    }
}

/// The framebuffer after the pixels of an image from the `k`-th on are drawn
/// into a frame that fills the display: each of them at its own place, the
/// rest as it was.
spec fn filled_from(
    d: DisplayView,
    buffer: Seq<u8>,
    layout: PixelLayout,
    two_tone: bool,
    frame: Frame,
    k: int,
) -> Seq<u32> {
    Seq::new(
        d.pixels.len(),
        |i: int|
            if k <= i < frame.width * frame.height {
                shown(pixel_color(buffer, i * layout.width(), layout), two_tone).packed()
            } else {
                d.pixels[i]
            },
    )
}

proof fn lemma_filled_from(
    d: DisplayView,
    buffer: Seq<u8>,
    layout: PixelLayout,
    two_tone: bool,
    frame: Frame,
    k: int,
)
    requires
        d.width == frame.width,
        d.height == frame.height,
        0 <= k <= frame.width * frame.height,
    ensures
        drawn(d, image_content(buffer, layout, two_tone, frame).skip(k), frame).0 == filled_from(
            d,
            buffer,
            layout,
            two_tone,
            frame,
            k,
        ),
    decreases frame.width * frame.height - k,
{
    let content = image_content(buffer, layout, two_tone, frame);
    let w = frame.width as int;
    let h = frame.height as int;
    if k == w * h {
        assert(content.skip(k) =~= Seq::<(usize, usize, Color)>::empty());
        assert(d.pixels =~= filled_from(d, buffer, layout, two_tone, frame, k));
    } else {
        assert(w > 0) by (nonlinear_arith)
            requires
                0 <= k < w * h,
                0 <= w,
                0 <= h,
        ;
        let x = k % w;
        let y = k / w;
        vstd::arithmetic::div_mod::lemma_fundamental_div_mod(k, w);
        assert(0 <= y < h) by (nonlinear_arith)
            requires
                k == w * y + x,
                0 <= x < w,
                0 <= k < w * h,
        ;
        assert(w * y == y * w) by (nonlinear_arith);
        let color = shown(pixel_color(buffer, k * layout.width(), layout), two_tone);
        assert(content.skip(k).first() == content[k]);
        assert(content[k] == (x as usize, y as usize, color));
        assert(content.skip(k).drop_first() =~= content.skip(k + 1));
        assert(plot_offset(d, frame, x, y) == k);
        let next = DisplayView { pixels: plotted(d.pixels, k, color.packed()), ..d };
        lemma_filled_from(next, buffer, layout, two_tone, frame, k + 1);
        assert(filled_from(next, buffer, layout, two_tone, frame, k + 1) =~= filled_from(
            d,
            buffer,
            layout,
            two_tone,
            frame,
            k,
        ));
    }
}

/// An image that is drawn into a frame that fills the display is on the
/// display pixel for pixel: the pixel `i` of the framebuffer holds the colour
/// that is shown for the pixel `i` of the image, and what the framebuffer
/// holds behind the image stays.
pub proof fn lemma_image_fills_display(
    d: DisplayView,
    buffer: Seq<u8>,
    layout: PixelLayout,
    two_tone: bool,
    frame: Frame,
)
    requires
        d.width == frame.width,
        d.height == frame.height,
    ensures
        drawn(d, image_content(buffer, layout, two_tone, frame), frame).0.len() == d.pixels.len(),
        forall|i: int|
            0 <= i < d.pixels.len() ==> #[trigger] drawn(
                d,
                image_content(buffer, layout, two_tone, frame),
                frame,
            ).0[i] == if i < frame.width * frame.height {
                shown(pixel_color(buffer, i * layout.width(), layout), two_tone).packed()
            } else {
                d.pixels[i]
            },
{
    let content = image_content(buffer, layout, two_tone, frame);
    assert(0 <= frame.width * frame.height) by (nonlinear_arith)
        requires
            0 <= frame.width,
            0 <= frame.height,
    ;
    assert(content.skip(0) =~= content);
    lemma_filled_from(d, buffer, layout, two_tone, frame, 0);
}

/// The pixel `(x, y)` of a frame is the one at `y * width + x` of its rows,
/// and its bytes lie inside an image of the frame's size.
proof fn lemma_pixel_place(frame: Frame, x: int, y: int, size: int)
    requires
        0 <= x < frame.width,
        0 <= y < frame.height,
        1 <= size,
    ensures
        0 <= y * frame.width + x < frame.width * frame.height,
        (y * frame.width + x) % (frame.width as int) == x,
        (y * frame.width + x) / (frame.width as int) == y,
        (y * frame.width + x) * size + size <= frame.width * frame.height * size,
{
    let w = frame.width as int;
    let h = frame.height as int;
    let k = y * w + x;
    assert(0 <= y * w) by (nonlinear_arith)
        requires
            0 <= y,
            0 <= w,
    ;
    assert(k + 1 <= w * h) by (nonlinear_arith)
        requires
            k == y * w + x,
            0 <= x < w,
            0 <= y < h,
    ;
    vstd::arithmetic::div_mod::lemma_fundamental_div_mod_converse(k, w, y, x);
    assert((k + 1) * size <= w * h * size) by (nonlinear_arith)
        requires
            k + 1 <= w * h,
            1 <= size,
    ;
    assert((k + 1) * size == k * size + size) by (nonlinear_arith);
}

} // verus!
