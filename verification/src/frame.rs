//! The frames of the video: from the bytes of one archive entry to a picture
//! of the size of the display, and onto the display.
//!
//! Decoding and scaling are the work of `zune-png` and `fast_image_resize`.
//! Of the decoder it is taken on trust that the same bytes decode to the
//! same image; of the scaling nothing is. What either hands back is checked
//! here before it is drawn.

use crate::display::{drawn, image_content, Display, Frame};
use crate::pixel::PixelLayout;
use fast_image_resize::images::{Image, ImageRef};
use fast_image_resize::{PixelType, Resizer};
use vstd::prelude::*;
use zune_png::zune_core::bytestream::ZCursor;
use zune_png::zune_core::colorspace::ColorSpace;
use zune_png::zune_core::options::DecoderOptions;
use zune_png::PngDecoder;

verus! {

/// The parts that the pixels of a decoded image are made of.
#[derive(Debug, Clone, Copy, PartialEq, Eq, Structural)]
pub enum Channels {
    Rgb,
    Rgba,
    Luma,
    LumaAlpha,
    Other,
}

/// An image as the decoder hands it back: samples of one byte, or of two
/// with the higher byte first.
#[derive(Debug)]
pub struct RawImage {
    pub samples: Vec<u8>,
    pub width: usize,
    pub height: usize,
    pub channels: Channels,
    pub sample_bytes: usize,
}

/// A decoded image as the contracts see it.
pub struct RawView {
    pub samples: Seq<u8>,
    pub width: usize,
    pub height: usize,
    pub channels: Channels,
    pub sample_bytes: usize,
}

impl View for RawImage {
    type V = RawView;

    open spec fn view(&self) -> RawView {
        RawView {
            samples: self.samples@,
            width: self.width,
            height: self.height,
            channels: self.channels,
            sample_bytes: self.sample_bytes,
        }
    }
}

/// An image that can be drawn: `width * height` pixels, row after row.
#[derive(Debug)]
pub struct Picture {
    pub pixels: Vec<u8>,
    pub width: usize,
    pub height: usize,
    pub layout: PixelLayout,
}

/// A picture as the contracts see it.
pub struct PictureView {
    pub pixels: Seq<u8>,
    pub width: usize,
    pub height: usize,
    pub layout: PixelLayout,
}

impl View for Picture {
    type V = PictureView;

    open spec fn view(&self) -> PictureView {
        PictureView {
            pixels: self.pixels@,
            width: self.width,
            height: self.height,
            layout: self.layout,
        }
    }
}

impl Picture {
    /// Whether the picture holds as many bytes as its pixels take.
    pub open spec fn complete(&self) -> bool {
        self.pixels@.len() == self.width * self.height * self.layout.width()
    }

    /// The frame that the picture fills.
    pub open spec fn frame(&self) -> Frame {
        Frame { width: self.width, height: self.height }
    }
}

/// The layout of the pixels that are drawn; none for those that are not.
pub open spec fn layout_of(channels: Channels) -> Option<PixelLayout> {
    match channels {
        Channels::Rgb => Some(PixelLayout::Rgb),
        Channels::Rgba => Some(PixelLayout::Rgba),
        Channels::Luma => Some(PixelLayout::Luma),
        _ => None,
    }
}

/// The higher byte of every sample of two bytes.
pub open spec fn top_bytes(samples: Seq<u8>) -> Seq<u8> {
    Seq::new((samples.len() / 2) as nat, |i: int| samples[2 * i])
}

/// The picture in a decoded image: its samples where they are of one byte,
/// the higher byte of each where they are of two. None where the channels
/// are none that are drawn, or the samples are not as many as the size says.
pub open spec fn picture_in(raw: RawView) -> Option<PictureView> {
    match layout_of(raw.channels) {
        Some(layout) => {
            let count = raw.width * raw.height * layout.width();
            if raw.sample_bytes == 1 && raw.samples.len() == count {
                Some(
                    PictureView {
                        pixels: raw.samples,
                        width: raw.width,
                        height: raw.height,
                        layout,
                    },
                )
            } else if raw.sample_bytes == 2 && raw.samples.len() == 2 * count {
                Some(
                    PictureView {
                        pixels: top_bytes(raw.samples),
                        width: raw.width,
                        height: raw.height,
                        layout,
                    },
                )
            } else {
                None
            }
        },
        None => None,
    }
}

/// The picture in what the decoder made of a file, if it made an image of
/// it that is no wider than `max_width` and no higher than `max_height`.
pub open spec fn picture_read(decoded: Option<RawView>, max_width: usize, max_height: usize) -> Option<
    PictureView,
> {
    match decoded {
        Some(raw) => if raw.width <= max_width && raw.height <= max_height {
            picture_in(raw)
        } else {
            None
        },
        None => None,
    }
}

/// What `zune-png` makes of the PNG file `data` when it is told to decode no
/// image wider than `max_width` or higher than `max_height` and is left at
/// its defaults otherwise: the image, or nothing where it reports an error.
pub uninterp spec fn png_decoded(data: Seq<u8>, max_width: int, max_height: int) -> Option<RawView>;

/// Decodes the PNG file in `data` with `PngDecoder::decode_into` of
/// `zune-png`, under its default options and the two limits: the samples as
/// the file holds them, of one byte or of two with the higher byte first, the
/// width, the height, the channels and the bytes of a sample. `None` where
/// the decoder reports an error, an image wider than `max_width` or higher
/// than `max_height` among them.
///
/// It is taken on trust that the result is a function of the bytes and the
/// limits: the options are fixed, and which of its code the decoder runs on
/// a processor changes nothing of what it computes. That holds of one build
/// of the library: the decoder compares the transparent colour of an image
/// of sixteen bits in the byte order of the machine, so machines of the
/// other byte order may give other alpha samples for such an image.
///
/// The buffer for the samples has at most eight bytes for each pixel within
/// the limits, and a buffer of more bytes than `isize::MAX` cannot be had:
/// the limits must keep the product within it.
#[verifier::external_body]
fn decode_png(data: &[u8], max_width: usize, max_height: usize) -> (r: Option<RawImage>)
    requires
        max_width * max_height * 8 <= isize::MAX,
    ensures
        (match r {
            Some(raw) => Some(raw@),
            None => None,
        }) == png_decoded(data@, max_width as int, max_height as int),
{
    let options = DecoderOptions::default().set_max_width(max_width).set_max_height(max_height);
    let mut decoder = PngDecoder::new_with_options(ZCursor::new(data), options);
    decoder.decode_headers().ok()?;
    let mut samples = vec![0u8; decoder.output_buffer_size()?];
    decoder.decode_into(&mut samples).ok()?;
    let (width, height) = decoder.dimensions()?;
    let channels = match decoder.colorspace()? {
        ColorSpace::RGB => Channels::Rgb,
        ColorSpace::RGBA => Channels::Rgba,
        ColorSpace::Luma => Channels::Luma,
        ColorSpace::LumaA => Channels::LumaAlpha,
        _ => Channels::Other,
    };
    let sample_bytes = decoder.depth()?.size_of();
    Some(RawImage { samples, width, height, channels, sample_bytes })
}

/// Scales an image of `width` by `height` pixels to `new_width` by
/// `new_height`, with `Resizer::resize` of `fast_image_resize` and its
/// default options. `None` where the library reports an error.
///
/// It is taken on trust that the library reports none where `pixels` holds
/// the whole image, and that what it hands back then has the bytes of an
/// image of the new size: it refuses only a buffer that is too short, and
/// scales into a buffer that it makes as large as the new size asks. Nothing
/// is claimed of the values of the scaled pixels, which may depend on the
/// processor.
///
/// The library multiplies the width, the height and the size of a pixel of
/// either image without a check, makes a buffer of that many bytes for the
/// scaled image and one for an image of the width of the source and the
/// height of the target on the way, and no buffer can be had beyond
/// `isize::MAX`: the products must be within it.
#[verifier::external_body]
fn resize_pixels(
    pixels: &[u8],
    width: u32,
    height: u32,
    layout: PixelLayout,
    new_width: u32,
    new_height: u32,
) -> (r: Option<Vec<u8>>)
    requires
        width * height * layout.width() <= isize::MAX,
        new_width * new_height * layout.width() <= isize::MAX,
        width * new_height * layout.width() + layout.width() <= isize::MAX,
    ensures
        r is None ==> pixels@.len() < width * height * layout.width(),
        r matches Some(v) ==> (pixels@.len() >= width * height * layout.width() ==> v@.len()
            == new_width * new_height * layout.width()),
{
    let pixel_type = match layout {
        PixelLayout::Rgb => PixelType::U8x3,
        PixelLayout::Rgba => PixelType::U8x4,
        PixelLayout::Luma => PixelType::U8,
    };
    let source = ImageRef::new(width, height, pixels, pixel_type).ok()?;
    let mut target = Image::new(new_width, new_height, pixel_type);
    Resizer::new().resize(&source, &mut target, None).ok()?;
    Some(target.into_vec())
}

/// The number of bytes that `width * height` pixels of `layout` take, if it
/// is in range.
fn byte_count(width: usize, height: usize, layout: PixelLayout) -> (n: Option<usize>)
    ensures
        match n {
            Some(count) => count == width * height * layout.width(),
            None => width * height * layout.width() > usize::MAX,
        },
{
    assert(0 <= width * height) by (nonlinear_arith)
        requires
            0 <= width,
            0 <= height,
    ;
    match width.checked_mul(height) {
        Some(area) => area.checked_mul(layout.size()),
        None => {
            assert(width * height * layout.width() >= width * height) by (nonlinear_arith)
                requires
                    layout.width() >= 1,
                    width * height >= 0,
            ;
            None
        },
    }
}

/// Whether a buffer can hold `width * height` pixels of `layout` and one
/// pixel more.
fn fits_buffer(width: usize, height: usize, layout: PixelLayout) -> (fits: bool)
    ensures
        fits == (width * height * layout.width() + layout.width() <= isize::MAX),
{
    match byte_count(width, height, layout) {
        Some(count) => count <= isize::MAX as usize - layout.size(),
        None => false,
    }
}

/// The picture of `pixels`, if they are the pixels of an image of `width` by
/// `height` in `layout`: no more of them and no fewer.
pub fn picture_of(pixels: Vec<u8>, width: usize, height: usize, layout: PixelLayout) -> (r: Option<
    Picture,
>)
    ensures
        pixels@.len() == width * height * layout.width() ==> (r matches Some(p) && p.pixels@
            == pixels@ && p.width == width && p.height == height && p.layout == layout
            && p.complete()),
        pixels@.len() != width * height * layout.width() ==> r is None,
{
    let have = pixels.len();
    match byte_count(width, height, layout) {
        Some(count) => {
            if have == count {
                Some(Picture { pixels, width, height, layout })
            } else {
                None
            }
        },
        None => None,
    }
}

/// The higher byte of every sample of two bytes: every other byte, from the
/// first on.
pub fn strip_to_8bit(samples: &[u8]) -> (pixels: Vec<u8>)
    ensures
        pixels@ == top_bytes(samples@),
{
    let len = samples.len();
    let count = len / 2;
    let mut pixels: Vec<u8> = Vec::new();
    let mut i: usize = 0;
    while i < count
        invariant
            i <= count,
            len == samples@.len(),
            count == len / 2,
            pixels@.len() == i,
            forall|k: int| 0 <= k < i ==> pixels@[k] == samples@[2 * k],
        decreases count - i,
    {
        pixels.push(samples[2 * i]);
        i = i + 1;
    }
    assert(pixels@ =~= top_bytes(samples@));
    pixels
}

/// The picture in what the decoder handed back: its samples, or the higher
/// byte of each where they are of two bytes. `None` where the channels are
/// none that are drawn, or the samples are not as many as the size says.
pub fn picture_from(raw: RawImage) -> (r: Option<Picture>)
    ensures
        match picture_in(raw@) {
            Some(v) => r matches Some(p) && p@ == v && p.complete(),
            None => r is None,
        },
{
    let layout = match raw.channels {
        Channels::Rgb => PixelLayout::Rgb,
        Channels::Rgba => PixelLayout::Rgba,
        Channels::Luma => PixelLayout::Luma,
        _ => {
            return None;
        },
    };
    let have = raw.samples.len();
    if raw.sample_bytes == 1 {
        picture_of(raw.samples, raw.width, raw.height, layout)
    } else if raw.sample_bytes == 2 {
        let count = match byte_count(raw.width, raw.height, layout) {
            Some(count) => count,
            None => {
                return None;
            },
        };
        if have % 2 != 0 || have / 2 != count {
            return None;
        }
        picture_of(strip_to_8bit(raw.samples.as_slice()), raw.width, raw.height, layout)
    } else {
        None
    }
}

/// The picture in what the decoder made of a file: `None` where it made
/// none of it, or an image wider than `max_width` or higher than
/// `max_height`, or one that holds no picture.
pub fn picture_within(decoded: Option<RawImage>, max_width: usize, max_height: usize) -> (r: Option<
    Picture,
>)
    ensures
        match picture_read(
            match decoded {
                Some(raw) => Some(raw@),
                None => None,
            },
            max_width,
            max_height,
        ) {
            Some(v) => r matches Some(p) && p@ == v && p.complete() && p.width <= max_width
                && p.height <= max_height,
            None => r is None,
        },
{
    match decoded {
        Some(raw) => {
            if raw.width > max_width || raw.height > max_height {
                None
            } else {
                picture_from(raw)
            }
        },
        None => None,
    }
}

/// Decodes the PNG file in `data`, if it is no wider than `max_width` and no
/// higher than `max_height`: the picture in what the decoder makes of it.
/// Samples of sixteen bits are cut to their higher eight. Nothing is decoded
/// under limits so large that an image of eight bytes a pixel within them
/// would be more than a buffer can hold.
pub fn read_picture(data: &[u8], max_width: usize, max_height: usize) -> (r: Option<Picture>)
    ensures
        match (if max_width * max_height * 8 <= isize::MAX {
            picture_read(
                png_decoded(data@, max_width as int, max_height as int),
                max_width,
                max_height,
            )
        } else {
            None
        }) {
            Some(v) => r matches Some(p) && p@ == v,
            None => r is None,
        },
        r matches Some(p) ==> (p.complete() && p.width <= max_width && p.height <= max_height),
{
    let in_range = match max_width.checked_mul(max_height) {
        Some(area) => match area.checked_mul(8) {
            Some(bytes) => bytes <= isize::MAX as usize,
            None => false,
        },
        None => false,
    };
    if !in_range {
        assert(max_width * max_height * 8 > isize::MAX) by (nonlinear_arith)
            requires
                max_width * max_height > usize::MAX || max_width * max_height * 8 > isize::MAX,
                0 <= max_width,
                0 <= max_height,
                isize::MAX <= usize::MAX,
        ;
        return None;
    }
    picture_within(decode_png(data, max_width, max_height), max_width, max_height)
}

/// Whether a picture of `from_width` by `from_height` pixels of `layout`
/// can be handed to the scaling to `width` by `height`: every side fits 32
/// bits, and a buffer can hold the picture, the scaled picture, and a
/// picture of the width of the one and the height of the other, each with a
/// pixel to spare.
pub open spec fn scalable(
    from_width: usize,
    from_height: usize,
    width: usize,
    height: usize,
    layout: PixelLayout,
) -> bool {
    &&& from_width <= u32::MAX && from_height <= u32::MAX && width <= u32::MAX && height
        <= u32::MAX
    &&& from_width * from_height * layout.width() + layout.width() <= isize::MAX
    &&& width * height * layout.width() + layout.width() <= isize::MAX
    &&& from_width * height * layout.width() + layout.width() <= isize::MAX
}

/// Scales `picture` to `width` by `height` pixels: a complete picture of
/// that size and of the layout of `picture`. The values of its pixels are
/// the scaling's to choose. Nothing is scaled where `picture` is not
/// complete or the sizes are not [`scalable`]; everything else is.
pub fn scale_picture(picture: &Picture, width: usize, height: usize) -> (r: Option<Picture>)
    ensures
        r is Some <==> picture.complete() && scalable(
            picture.width,
            picture.height,
            width,
            height,
            picture.layout,
        ),
        r matches Some(p) ==> (p.complete() && p.width == width && p.height == height && p.layout
            == picture.layout),
{
    if picture.width > u32::MAX as usize || picture.height > u32::MAX as usize || width
        > u32::MAX as usize || height > u32::MAX as usize {
        return None;
    }
    if !fits_buffer(picture.width, picture.height, picture.layout) || !fits_buffer(
        width,
        height,
        picture.layout,
    ) || !fits_buffer(picture.width, height, picture.layout) {
        return None;
    }
    let have = picture.pixels.len();
    match byte_count(picture.width, picture.height, picture.layout) {
        Some(count) => {
            if have != count {
                return None;
            }
        },
        None => {
            return None;
        },
    }
    match resize_pixels(
        picture.pixels.as_slice(),
        picture.width as u32,
        picture.height as u32,
        picture.layout,
        width as u32,
        height as u32,
    ) {
        Some(pixels) => picture_of(pixels, width, height, picture.layout),
        None => None,
    }
}

/// Draws `picture` in the middle of the display, with `two_tone` in two
/// tones. A picture that is not complete, or larger than the display, is not
/// drawn, and the display stays as it is.
pub fn show(display: &mut Display, picture: &Picture, two_tone: bool) -> (shown: bool)
    ensures
        final(display)@.width == old(display)@.width,
        final(display)@.height == old(display)@.height,
        shown == (picture.complete() && picture.width <= old(display)@.width && picture.height
            <= old(display)@.height),
        shown ==> final(display)@.pixels == drawn(
            old(display)@,
            image_content(picture.pixels@, picture.layout, two_tone, picture.frame()),
            picture.frame(),
        ).0,
        !shown ==> final(display)@ == old(display)@,
{
    let frame = display.as_frame();
    if picture.width > frame.width || picture.height > frame.height {
        return false;
    }
    let have = picture.pixels.len();
    match byte_count(picture.width, picture.height, picture.layout) {
        Some(count) => {
            if have != count {
                return false;
            }
        },
        None => {
            return false;
        },
    }
    display.draw_image(
        picture.pixels.as_slice(),
        picture.layout,
        two_tone,
        Frame { width: picture.width, height: picture.height },
    );
    true
}

/// Whether the frame in `data` is presented on a display of `width` by
/// `height` pixels: the limits are not too large to decode under, the file
/// holds a picture within them, and the picture can be scaled to the size of
/// the display.
pub open spec fn presentable(data: Seq<u8>, width: usize, height: usize) -> bool {
    &&& width * height * 8 <= isize::MAX
    &&& picture_read(png_decoded(data, width as int, height as int), width, height) matches Some(
        v,
    ) && scalable(v.width, v.height, width, height, v.layout)
}

/// Presents the frame in `data`: decodes it, scales it to the size of the
/// display and draws it, with `two_tone` in two tones.
///
/// The frame is shown exactly where it is [`presentable`]. The framebuffer
/// then holds a picture of the size of the display, drawn pixel for pixel
/// over what it held before. A frame that is not shown is skipped: the
/// display stays as it is and the answer is `false`.
pub fn present(display: &mut Display, data: &[u8], two_tone: bool) -> (shown: bool)
    ensures
        final(display)@.width == old(display)@.width,
        final(display)@.height == old(display)@.height,
        final(display)@.pixels.len() == old(display)@.pixels.len(),
        shown == presentable(data@, old(display)@.frame().width, old(display)@.frame().height),
        shown ==> exists|pixels: Seq<u8>, layout: PixelLayout|
            {
                &&& pixels.len() == old(display)@.width * old(display)@.height * layout.width()
                &&& final(display)@.pixels == drawn(
                    old(display)@,
                    #[trigger] image_content(pixels, layout, two_tone, old(display)@.frame()),
                    old(display)@.frame(),
                ).0
            },
        !shown ==> final(display)@ == old(display)@,
{
    let frame = display.as_frame();
    let decoded = match read_picture(data, frame.width, frame.height) {
        Some(p) => p,
        None => {
            return false;
        },
    };
    let scaled = match scale_picture(&decoded, frame.width, frame.height) {
        Some(p) => p,
        None => {
            return false;
        },
    };
    proof {
        assert(scaled.frame() == old(display)@.frame());
        crate::display::lemma_drawn_len(
            display@,
            image_content(scaled.pixels@, scaled.layout, two_tone, scaled.frame()),
            scaled.frame(),
        );
    }
    let shown = show(display, &scaled, two_tone);
    proof {
        assert(shown);
        assert(scaled.pixels@.len() == old(display)@.width * old(display)@.height
            * scaled.layout.width());
        assert(display@.pixels == drawn(
            old(display)@,
            image_content(scaled.pixels@, scaled.layout, two_tone, old(display)@.frame()),
            old(display)@.frame(),
        ).0);
    }
    shown
}

} // verus!
