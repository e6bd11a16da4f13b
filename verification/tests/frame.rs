use bad_apple::display::Display;
use bad_apple::frame::{
    picture_from, picture_of, picture_within, present, read_picture, scale_picture, show,
    strip_to_8bit, Channels, Picture, RawImage,
};
use bad_apple::pixel::PixelLayout;
use zune_png::zune_core::bit_depth::BitDepth;
use zune_png::zune_core::colorspace::ColorSpace;
use zune_png::zune_core::options::EncoderOptions;
use zune_png::PngEncoder;

fn png(pixels: &[u8], width: usize, height: usize, colorspace: ColorSpace) -> Vec<u8> {
    let options = EncoderOptions::new(width, height, colorspace, BitDepth::Eight);
    let mut sink = Vec::new();
    PngEncoder::new(pixels, options).encode(&mut sink).unwrap();
    sink
}

#[test]
fn a_picture_needs_as_many_bytes_as_its_pixels_take() {
    let p = picture_of(vec![0; 24], 4, 2, PixelLayout::Rgb).unwrap();
    assert_eq!((p.width, p.height, p.layout, p.pixels.len()), (4, 2, PixelLayout::Rgb, 24));
    assert!(picture_of(vec![0; 23], 4, 2, PixelLayout::Rgb).is_none());
    assert!(picture_of(vec![0; 25], 4, 2, PixelLayout::Rgb).is_none());
    assert!(picture_of(vec![0; 8], 4, 2, PixelLayout::Luma).is_some());
    assert!(picture_of(vec![0; 32], 4, 2, PixelLayout::Rgba).is_some());
    assert!(picture_of(vec![], 0, 7, PixelLayout::Rgba).is_some());
    assert!(picture_of(vec![], usize::MAX, usize::MAX, PixelLayout::Rgb).is_none());
}

#[test]
fn only_three_kinds_of_channels_are_drawn() {
    let raw = |channels, len| RawImage {
        samples: vec![7; len],
        width: 2,
        height: 2,
        channels,
        sample_bytes: 1,
    };
    assert_eq!(picture_from(raw(Channels::Rgb, 12)).unwrap().layout, PixelLayout::Rgb);
    assert_eq!(picture_from(raw(Channels::Rgba, 16)).unwrap().layout, PixelLayout::Rgba);
    assert_eq!(picture_from(raw(Channels::Luma, 4)).unwrap().layout, PixelLayout::Luma);
    assert!(picture_from(raw(Channels::LumaAlpha, 8)).is_none());
    assert!(picture_from(raw(Channels::Other, 12)).is_none());
    assert!(picture_from(raw(Channels::Rgb, 11)).is_none());
}

#[test]
fn a_png_is_decoded_to_its_pixels() {
    let pixels: Vec<u8> = (0..24).map(|i| i * 10).collect();
    let file = png(&pixels, 4, 2, ColorSpace::RGB);
    let picture = read_picture(&file, 640, 480).unwrap();
    assert_eq!((picture.width, picture.height, picture.layout), (4, 2, PixelLayout::Rgb));
    assert_eq!(picture.pixels, pixels);
}

#[test]
fn a_png_of_gray_is_decoded_to_one_byte_a_pixel() {
    let pixels = vec![0u8, 50, 100, 150, 200, 250];
    let file = png(&pixels, 3, 2, ColorSpace::Luma);
    let picture = read_picture(&file, 3, 2).unwrap();
    assert_eq!((picture.width, picture.height, picture.layout), (3, 2, PixelLayout::Luma));
    assert_eq!(picture.pixels, pixels);
}

#[test]
fn a_png_with_alpha_keeps_four_bytes_a_pixel() {
    let pixels: Vec<u8> = (0..16).collect();
    let file = png(&pixels, 2, 2, ColorSpace::RGBA);
    let picture = read_picture(&file, 16, 16).unwrap();
    assert_eq!(picture.layout, PixelLayout::Rgba);
    assert_eq!(picture.pixels, pixels);
}

#[test]
fn a_png_larger_than_the_limits_is_not_decoded() {
    let file = png(&vec![9u8; 4 * 2 * 3], 4, 2, ColorSpace::RGB);
    assert!(read_picture(&file, 3, 2).is_none());
    assert!(read_picture(&file, 4, 1).is_none());
    assert!(read_picture(&file, 4, 2).is_some());
    assert!(read_picture(&file, usize::MAX, usize::MAX).is_none());
}

#[test]
fn what_is_no_png_is_not_decoded() {
    assert!(read_picture(&[], 640, 480).is_none());
    assert!(read_picture(b"not a picture at all", 640, 480).is_none());
    let mut file = png(&vec![9u8; 12], 2, 2, ColorSpace::RGB);
    file.truncate(file.len() / 2);
    assert!(read_picture(&file, 640, 480).is_none());
    // a header and an end, nothing between them
    let mut bare = file[..33].to_vec();
    bare.extend_from_slice(&[0, 0, 0, 0, b'I', b'E', b'N', b'D', 0xAE, 0x42, 0x60, 0x82]);
    assert!(read_picture(&bare, 640, 480).is_none());
}

#[test]
fn scaling_gives_a_picture_of_the_size_asked_for() {
    let picture = picture_of(vec![200; 4 * 2 * 3], 4, 2, PixelLayout::Rgb).unwrap();
    let scaled = scale_picture(&picture, 8, 6).unwrap();
    assert_eq!((scaled.width, scaled.height, scaled.layout), (8, 6, PixelLayout::Rgb));
    assert_eq!(scaled.pixels, vec![200; 8 * 6 * 3]);
    let smaller = scale_picture(&picture, 2, 1).unwrap();
    assert_eq!(smaller.pixels, vec![200; 2 * 3]);
}

#[test]
fn scaling_to_the_same_size_changes_nothing() {
    let pixels: Vec<u8> = (0..12).map(|i| i * 20).collect();
    let picture = picture_of(pixels.clone(), 4, 3, PixelLayout::Luma).unwrap();
    let scaled = scale_picture(&picture, 4, 3).unwrap();
    assert_eq!(scaled.pixels, pixels);
}

#[test]
fn scaling_keeps_light_and_dark_apart() {
    // left half black, right half white
    let mut pixels = Vec::new();
    for _ in 0..4 {
        pixels.extend_from_slice(&[0, 0, 0, 0, 255, 255, 255, 255]);
    }
    let picture = picture_of(pixels, 8, 4, PixelLayout::Luma).unwrap();
    let scaled = scale_picture(&picture, 16, 8).unwrap();
    for row in scaled.pixels.chunks(16) {
        assert!(row[0] < 16 && row[1] < 16);
        assert!(row[14] > 240 && row[15] > 240);
    }
}

#[test]
fn a_picture_that_is_not_complete_is_not_scaled_or_shown() {
    let broken = Picture { pixels: vec![1; 5], width: 2, height: 2, layout: PixelLayout::Rgb };
    assert!(scale_picture(&broken, 4, 4).is_none());
    let mut buffer = vec![0u32; 16];
    let mut display = Display::from_buffer(&mut buffer, 4, 4);
    assert!(!show(&mut display, &broken, false));
    assert_eq!(buffer, vec![0u32; 16]);
}

#[test]
fn a_picture_is_shown_in_the_middle() {
    let picture = picture_of(vec![10, 20, 30, 40], 2, 2, PixelLayout::Luma).unwrap();
    let mut buffer = vec![0u32; 16];
    let mut display = Display::from_buffer(&mut buffer, 4, 4);
    assert!(show(&mut display, &picture, false));
    let expected =
        vec![0, 0, 0, 0, 0, 0x0A0A0A, 0x141414, 0, 0, 0x1E1E1E, 0x282828, 0, 0, 0, 0, 0];
    assert_eq!(buffer, expected);
}

#[test]
fn a_picture_larger_than_the_display_is_not_shown() {
    let picture = picture_of(vec![255; 15], 5, 3, PixelLayout::Luma).unwrap();
    let mut buffer = vec![0u32; 16];
    let mut display = Display::from_buffer(&mut buffer, 4, 4);
    assert!(!show(&mut display, &picture, false));
    assert_eq!(buffer, vec![0u32; 16]);
}

#[test]
fn a_frame_is_presented_at_the_size_of_the_display() {
    let file = png(&vec![255u8; 2 * 2 * 3], 2, 2, ColorSpace::RGB);
    let mut buffer = vec![0u32; 12];
    let mut display = Display::from_buffer(&mut buffer, 4, 3);
    assert!(present(&mut display, &file, false));
    assert_eq!(buffer, vec![0xFFFFFFu32; 12]);
    let mut display = Display::from_buffer(&mut buffer, 4, 3);
    assert!(present(&mut display, &file, true));
    assert_eq!(buffer, vec![0x222222u32; 12]);
}

#[test]
fn a_frame_that_cannot_be_decoded_is_skipped() {
    let mut buffer = vec![5u32; 12];
    let mut display = Display::from_buffer(&mut buffer, 4, 3);
    assert!(!present(&mut display, b"neither header nor pixels", false));
    let large = png(&vec![255u8; 8 * 8], 8, 8, ColorSpace::Luma);
    assert!(!present(&mut display, &large, false));
    assert_eq!(buffer, vec![5u32; 12]);
}

#[test]
fn nothing_is_scaled_to_a_size_that_no_buffer_can_hold() {
    let picture = picture_of(vec![200; 4 * 2 * 3], 4, 2, PixelLayout::Rgb).unwrap();
    assert!(scale_picture(&picture, usize::MAX, 1).is_none());
    assert!(scale_picture(&picture, 1 << 31, 1 << 31).is_none());
    let huge = Picture { pixels: vec![], width: usize::MAX, height: 2, layout: PixelLayout::Luma };
    assert!(scale_picture(&huge, 4, 4).is_none());
}

#[test]
fn a_frame_that_is_presented_covers_the_whole_display() {
    let file = png(&[0u8, 0, 0, 255, 255, 255], 2, 1, ColorSpace::RGB);
    let mut buffer = vec![7u32; 8];
    let mut display = Display::from_buffer(&mut buffer, 4, 2);
    assert!(present(&mut display, &file, false));
    // every pixel is a gray of the picture, none is what it was
    for pixel in &buffer {
        let (r, g, b) = ((pixel >> 16) & 0xFF, (pixel >> 8) & 0xFF, pixel & 0xFF);
        assert!(r == g && g == b && *pixel <= 0xFFFFFF);
    }
    assert!(buffer[0] < 0x404040 && buffer[3] > 0xC0C0C0);
    assert!(buffer[4] < 0x404040 && buffer[7] > 0xC0C0C0);
}

fn raw(samples: Vec<u8>, width: usize, height: usize, sample_bytes: usize) -> RawImage {
    RawImage { samples, width, height, channels: Channels::Luma, sample_bytes }
}

#[test]
fn samples_of_two_bytes_are_cut_to_the_higher_one() {
    assert_eq!(strip_to_8bit(&[0x12, 0x34, 0xAB, 0xCD]), vec![0x12, 0xAB]);
    assert_eq!(strip_to_8bit(&[1, 2, 3]), vec![1]);
    assert_eq!(strip_to_8bit(&[]), Vec::<u8>::new());
    let picture = picture_from(raw(vec![0x12, 0x34, 0xAB, 0xCD], 2, 1, 2)).unwrap();
    assert_eq!((picture.width, picture.height, picture.layout), (2, 1, PixelLayout::Luma));
    assert_eq!(picture.pixels, vec![0x12, 0xAB]);
    assert!(picture_from(raw(vec![0x12, 0x34, 0xAB], 2, 1, 2)).is_none());
    assert!(picture_from(raw(vec![0x12, 0x34], 2, 1, 2)).is_none());
    assert!(picture_from(raw(vec![0x12, 0x34, 0xAB, 0xCD], 2, 1, 1)).is_none());
    assert!(picture_from(raw(vec![0x12, 0x34, 0xAB], 3, 1, 3)).is_none());
    assert!(picture_from(raw(vec![], 0, 0, 0)).is_none());
}

#[test]
fn an_image_beyond_the_limits_holds_no_picture() {
    assert!(picture_within(Some(raw(vec![1, 2], 2, 1, 1)), 2, 1).is_some());
    assert!(picture_within(Some(raw(vec![1, 2], 2, 1, 1)), 1, 1).is_none());
    assert!(picture_within(Some(raw(vec![1, 2], 1, 2, 1)), 1, 1).is_none());
    assert!(picture_within(None, 10, 10).is_none());
}

#[test]
fn a_png_of_sixteen_bits_is_decoded_to_the_higher_eight() {
    let samples = [0x12u8, 0x34, 0xAB, 0xCD, 0x00, 0xFF, 0xFF, 0x00];
    let options = EncoderOptions::new(2, 2, ColorSpace::Luma, BitDepth::Sixteen);
    let mut file = Vec::new();
    PngEncoder::new(&samples, options).encode(&mut file).unwrap();
    let picture = read_picture(&file, 8, 8).unwrap();
    assert_eq!((picture.width, picture.height, picture.layout), (2, 2, PixelLayout::Luma));
    assert_eq!(picture.pixels, vec![0x12, 0xAB, 0x00, 0xFF]);
}

#[test]
fn the_same_file_decodes_to_the_same_picture() {
    let pixels: Vec<u8> = (0..48).map(|i| (i * 5) as u8).collect();
    let file = png(&pixels, 4, 4, ColorSpace::RGB);
    let first = read_picture(&file, 16, 16).unwrap();
    let second = read_picture(&file, 16, 16).unwrap();
    assert_eq!(first.pixels, second.pixels);
    assert_eq!(first.pixels, pixels);
}

fn chunk(kind: &[u8; 4], data: &[u8]) -> Vec<u8> {
    let mut bytes = (data.len() as u32).to_be_bytes().to_vec();
    bytes.extend_from_slice(kind);
    bytes.extend_from_slice(data);
    bytes.extend_from_slice(&[0, 0, 0, 0]);
    bytes
}

#[test]
fn a_frame_of_a_size_that_cannot_be_is_refused() {
    // an image of one pixel of sixteen bits whose first frame claims 2^32 - 1 pixels a side
    let mut file = vec![0x89, b'P', b'N', b'G', 0x0D, 0x0A, 0x1A, 0x0A];
    file.extend(chunk(b"IHDR", &[0, 0, 0, 1, 0, 0, 0, 1, 16, 6, 0, 0, 0]));
    let mut control = vec![0, 0, 0, 0];
    control.extend_from_slice(&[0xFF; 8]);
    control.extend_from_slice(&[0; 12]);
    file.extend(chunk(b"fcTL", &control));
    file.extend(chunk(b"IDAT", &[0x78, 0x9C, 0x63, 0x00, 0x00, 0x00, 0x01, 0x00, 0x01]));
    file.extend(chunk(b"IEND", &[]));
    assert!(read_picture(&file, 640, 480).is_none());
    let mut buffer = vec![3u32; 4];
    let mut display = Display::from_buffer(&mut buffer, 2, 2);
    assert!(!present(&mut display, &file, false));
    assert_eq!(buffer, vec![3u32; 4]);
}

#[test]
fn a_complete_picture_is_always_scaled() {
    for (w, h, layout, size) in
        [(1, 1, PixelLayout::Luma, 1), (3, 2, PixelLayout::Rgb, 3), (2, 5, PixelLayout::Rgba, 4)]
    {
        let picture = picture_of(vec![9; w * h * size], w, h, layout).unwrap();
        for (nw, nh) in [(1, 1), (7, 3), (2, 9), (w, h)] {
            let scaled = scale_picture(&picture, nw, nh).unwrap();
            assert_eq!((scaled.width, scaled.height, scaled.layout), (nw, nh, layout));
            assert_eq!(scaled.pixels.len(), nw * nh * size);
        }
    }
    // pictures and sizes without pixels, too
    let empty = picture_of(vec![], 0, 4, PixelLayout::Rgb).unwrap();
    assert_eq!(scale_picture(&empty, 2, 2).unwrap().pixels.len(), 12);
    let picture = picture_of(vec![9; 4], 2, 2, PixelLayout::Luma).unwrap();
    assert_eq!(scale_picture(&picture, 0, 5).unwrap().pixels.len(), 0);
}

#[test]
fn a_picture_with_bytes_to_spare_is_not_scaled() {
    let long = Picture { pixels: vec![1; 13], width: 2, height: 2, layout: PixelLayout::Rgb };
    assert!(scale_picture(&long, 4, 4).is_none());
}

#[test]
fn every_picture_within_the_display_is_presented() {
    for (w, h) in [(1usize, 1usize), (4, 3), (3, 4), (2, 2)] {
        let file = png(&vec![128u8; w * h], w, h, ColorSpace::Luma);
        let mut buffer = vec![0u32; 12];
        let mut display = Display::from_buffer(&mut buffer, 4, 3);
        let fits = w <= 4 && h <= 3;
        assert_eq!(present(&mut display, &file, false), fits);
        assert_eq!(buffer, vec![if fits { 0x808080u32 } else { 0 }; 12]);
    }
    // channels that are not drawn
    let file = png(&vec![128u8; 8], 2, 2, ColorSpace::LumaA);
    let mut buffer = vec![0u32; 12];
    let mut display = Display::from_buffer(&mut buffer, 4, 3);
    assert!(!present(&mut display, &file, false));
}
