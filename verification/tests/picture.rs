use bad_apple::display::{select_mode, Display, DisplayError, Frame};
use bad_apple::pixel::{pixel_at, scale_nn_fast, Color, PixelLayout};

#[test]
fn colours_have_their_parts() {
    assert_eq!(Color::Gray.rgb(), (0x22, 0x22, 0x22));
    assert_eq!(Color::Red.rgb(), (255, 0, 0));
    assert_eq!(Color::Green.rgb(), (0, 255, 0));
    assert_eq!(Color::Blue.rgb(), (0, 0, 255));
    assert_eq!(Color::Yellow.rgb(), (255, 255, 0));
    assert_eq!(Color::Cyan.rgb(), (0, 255, 255));
    assert_eq!(Color::Magenta.rgb(), (255, 0, 255));
    assert_eq!(Color::Rgb(1, 2, 3).rgb(), (1, 2, 3));
    assert_eq!(Color::default(), Color::Gray);
}

#[test]
fn colours_are_packed_red_first() {
    assert_eq!(Color::Gray.hex(), 0x222222);
    assert_eq!(Color::Red.hex(), 0xFF0000);
    assert_eq!(Color::Cyan.hex(), 0x00FFFF);
    assert_eq!(Color::Rgb(0x12, 0x34, 0x56).hex(), 0x123456);
    assert_eq!(Color::black().hex(), 0);
    assert_eq!(Color::white().hex(), 0xFFFFFF);
}

#[test]
fn gray_is_a_weighted_mean() {
    assert_eq!(Color::Red.to_grayscale(), Color::Rgb(76, 76, 76));
    assert_eq!(Color::Green.to_grayscale(), Color::Rgb(149, 149, 149));
    assert_eq!(Color::Blue.to_grayscale(), Color::Rgb(28, 28, 28));
    assert_eq!(Color::white().to_grayscale(), Color::Rgb(255, 255, 255));
    assert_eq!(Color::black().to_grayscale(), Color::Rgb(0, 0, 0));
    assert_eq!(Color::Rgb(10, 200, 30).to_grayscale(), Color::Rgb(123, 123, 123));
}

#[test]
fn black_and_white_part_at_the_threshold() {
    assert_eq!(Color::Rgb(128, 128, 128).to_bw(None), Color::white());
    assert_eq!(Color::Rgb(127, 127, 127).to_bw(None), Color::black());
    assert_eq!(Color::Rgb(127, 127, 127).to_bw(Some(127)), Color::white());
    assert_eq!(Color::Green.to_bw(Some(150)), Color::black());
    assert_eq!(Color::Green.to_bw(Some(149)), Color::white());
}

#[test]
fn two_tones_part_at_the_threshold() {
    assert_eq!(Color::white().to_two_tone(Color::Gray, Color::Red, 160), Color::Gray);
    assert_eq!(Color::Rgb(159, 159, 159).to_two_tone(Color::Gray, Color::Red, 160), Color::Red);
    assert_eq!(Color::Rgb(160, 160, 160).to_two_tone(Color::Gray, Color::Red, 160), Color::Gray);
    assert_eq!(Color::black().to_two_tone(Color::Gray, Color::Red, 0), Color::Gray);
}

#[test]
fn the_complement_takes_every_part_from_255() {
    assert_eq!(Color::Rgb(0, 100, 255).invert(), Color::Rgb(255, 155, 0));
    assert_eq!(Color::Gray.invert(), Color::Rgb(0xDD, 0xDD, 0xDD));
    assert_eq!(Color::Red.invert().invert(), Color::Rgb(255, 0, 0));
}

#[test]
fn a_pixel_is_read_by_its_layout() {
    let buffer = [1u8, 2, 3, 4, 5, 6, 7, 8];
    assert_eq!(pixel_at(&buffer, 0, PixelLayout::Rgb), Some(Color::Rgb(1, 2, 3)));
    assert_eq!(pixel_at(&buffer, 3, PixelLayout::Rgb), Some(Color::Rgb(4, 5, 6)));
    assert_eq!(pixel_at(&buffer, 4, PixelLayout::Rgba), Some(Color::Rgb(5, 6, 7)));
    assert_eq!(pixel_at(&buffer, 7, PixelLayout::Luma), Some(Color::Rgb(8, 8, 8)));
    assert_eq!(pixel_at(&buffer, 6, PixelLayout::Rgb), None);
    assert_eq!(pixel_at(&buffer, 5, PixelLayout::Rgba), None);
    assert_eq!(pixel_at(&buffer, 8, PixelLayout::Luma), None);
    assert_eq!(pixel_at(&[], 0, PixelLayout::Rgb), None);
    assert_eq!(PixelLayout::Rgb.size(), 3);
    assert_eq!(PixelLayout::Rgba.size(), 4);
    assert_eq!(PixelLayout::Luma.size(), 1);
}

#[test]
fn the_smallest_mode_is_chosen() {
    assert_eq!(select_mode(&[]), None);
    assert_eq!(select_mode(&[(800, 600)]), Some(0));
    assert_eq!(select_mode(&[(800, 600), (640, 480), (1024, 768)]), Some(1));
    assert_eq!(select_mode(&[(640, 480), (640, 400), (640, 400)]), Some(1));
    assert_eq!(select_mode(&[(640, 480), (320, 900), (640, 200)]), Some(1));
}

#[test]
fn clearing_fills_the_framebuffer_with_gray() {
    let mut buffer = vec![0u32; 12];
    let mut display = Display::from_buffer(&mut buffer, 4, 3);
    display.clear();
    assert_eq!(display.len(), 12);
    assert_eq!(display.pixel(0), Some(0x222222));
    assert_eq!(display.pixel(11), Some(0x222222));
    assert_eq!(display.pixel(12), None);
    assert_eq!(buffer, vec![0x222222u32; 12]);
}

#[test]
fn the_frame_of_a_display_fills_it() {
    let mut buffer = vec![0u32; 12];
    let display = Display::from_buffer(&mut buffer, 4, 3);
    assert_eq!(display.as_frame(), Frame { width: 4, height: 3 });
    assert_eq!((display.width(), display.height()), (4, 3));
}

#[test]
fn pixels_are_drawn_row_by_row() {
    let mut buffer = vec![0u32; 12];
    let mut display = Display::from_buffer(&mut buffer, 4, 3);
    let frame = display.as_frame();
    let content = [(0, 0, Color::Red), (3, 0, Color::Green), (1, 2, Color::Rgb(1, 2, 3))];
    assert_eq!(display.draw(&content, frame), Ok(()));
    let mut expected = vec![0u32; 12];
    expected[0] = 0xFF0000;
    expected[3] = 0x00FF00;
    expected[9] = 0x010203;
    assert_eq!(buffer, expected);
}

#[test]
fn a_smaller_frame_stands_in_the_middle() {
    let mut buffer = vec![0u32; 6 * 6];
    let mut display = Display::from_buffer(&mut buffer, 6, 6);
    let frame = Frame { width: 2, height: 4 };
    assert_eq!(display.draw(&[(0, 0, Color::Blue), (1, 3, Color::Red)], frame), Ok(()));
    let mut expected = vec![0u32; 36];
    expected[1 * 6 + 2] = 0x0000FF;
    expected[4 * 6 + 3] = 0xFF0000;
    assert_eq!(buffer, expected);
}

#[test]
fn drawing_stops_at_a_pixel_outside_the_frame() {
    let mut buffer = vec![0u32; 12];
    let mut display = Display::from_buffer(&mut buffer, 4, 3);
    let frame = display.as_frame();
    let content = [(0, 0, Color::Red), (4, 0, Color::Green), (1, 1, Color::Blue)];
    assert_eq!(display.draw(&content, frame), Err(DisplayError::DrawError { x: 4, y: 0 }));
    assert_eq!(display.draw(&[(0, 3, Color::Red)], frame), Err(DisplayError::DrawError { x: 0, y: 3 }));
    let mut expected = vec![0u32; 12];
    expected[0] = 0xFF0000;
    assert_eq!(buffer, expected);
}

#[test]
fn a_pixel_outside_the_framebuffer_is_passed_over() {
    let mut buffer = vec![0u32; 5];
    let mut display = Display::from_buffer(&mut buffer, 4, 3);
    let frame = display.as_frame();
    assert_eq!(display.draw(&[(1, 1, Color::Red), (0, 1, Color::Blue)], frame), Ok(()));
    assert_eq!(buffer, vec![0, 0, 0, 0, 0x0000FF]);
}

#[test]
fn an_image_is_drawn_pixel_for_pixel() {
    let image = [10u8, 20, 30, 40, 50, 60, 70, 80, 90, 100, 110, 120];
    let mut buffer = vec![0u32; 4];
    let mut display = Display::from_buffer(&mut buffer, 2, 2);
    let frame = display.as_frame();
    display.draw_image(&image, PixelLayout::Rgb, false, frame);
    assert_eq!(buffer, vec![0x0A141E, 0x28323C, 0x46505A, 0x646E78]);
}

#[test]
fn an_image_of_gray_is_drawn_in_two_tones() {
    let image = [0u8, 159, 160, 255, 7, 200];
    let mut buffer = vec![0u32; 6];
    let mut display = Display::from_buffer(&mut buffer, 3, 2);
    let frame = display.as_frame();
    display.draw_image(&image, PixelLayout::Luma, true, frame);
    assert_eq!(buffer, vec![0xFFFFFF, 0xFFFFFF, 0x222222, 0x222222, 0xFFFFFF, 0x222222]);
}

#[test]
fn the_alpha_of_an_image_is_not_drawn() {
    let image = [1u8, 2, 3, 0, 4, 5, 6, 255];
    let mut buffer = vec![0u32; 2];
    let mut display = Display::from_buffer(&mut buffer, 2, 1);
    let frame = display.as_frame();
    display.draw_image(&image, PixelLayout::Rgba, false, frame);
    assert_eq!(buffer, vec![0x010203, 0x040506]);
}

#[test]
fn scaling_by_the_nearest_pixel_doubles_every_pixel() {
    let src = [1u8, 2, 3, 4];
    let mut dst = vec![0u8; 16];
    scale_nn_fast(&src, 2, 2, 4, 4, 1, &mut dst);
    assert_eq!(dst, vec![1, 1, 2, 2, 1, 1, 2, 2, 3, 3, 4, 4, 3, 3, 4, 4]);
}

#[test]
fn scaling_by_the_nearest_pixel_keeps_the_channels_together() {
    let src = [10u8, 11, 12, 20, 21, 22];
    let mut dst = vec![0u8; 3 * 3];
    scale_nn_fast(&src, 2, 1, 3, 1, 3, &mut dst);
    // x * 2 / 3 for x = 0, 1, 2 is 0, 0, 1
    assert_eq!(dst, vec![10, 11, 12, 10, 11, 12, 20, 21, 22]);
}

#[test]
fn scaling_by_the_nearest_pixel_to_the_same_size_copies() {
    let src: Vec<u8> = (0..24).collect();
    let mut dst = vec![0u8; 24];
    scale_nn_fast(&src, 4, 2, 4, 2, 3, &mut dst);
    assert_eq!(dst, src);
}

#[test]
fn scaling_by_the_nearest_pixel_drops_pixels_when_shrinking() {
    let src: Vec<u8> = (0..16).collect();
    let mut dst = vec![0u8; 4];
    scale_nn_fast(&src, 4, 4, 2, 2, 1, &mut dst);
    assert_eq!(dst, vec![0, 2, 8, 10]);
}

#[test]
fn scaling_by_the_nearest_pixel_leaves_the_rest_of_the_buffer() {
    let src = [5u8, 6];
    let mut dst = vec![9u8; 7];
    scale_nn_fast(&src, 2, 1, 4, 1, 1, &mut dst);
    assert_eq!(dst, vec![5, 5, 6, 6, 9, 9, 9]);
    let mut untouched = vec![9u8; 3];
    scale_nn_fast(&src, 2, 1, 0, 5, 1, &mut untouched);
    assert_eq!(untouched, vec![9, 9, 9]);
    // nothing is asked of the source where nothing is written
    scale_nn_fast(&[], 0, 0, 0, 0, 3, &mut untouched);
    scale_nn_fast(&[], 0, 7, 4, 4, 0, &mut untouched);
    assert_eq!(untouched, vec![9, 9, 9]);
}
