use lavaxemu_core::{BufferTarget, Display, DrawOperation, GraphicsMode, Transform, FONT_SIZE};

/// A font image of the right size with blank glyphs.
fn font() -> Vec<u8> {
    vec![0; FONT_SIZE]
}

#[test]
fn presents_back_buffer_and_converts_rgb565() {
    let mut display = Display::new(160, 80, GraphicsMode::Color4, font());
    display.draw_pixel(BufferTarget::Back, 4, 5, DrawOperation::Draw);
    assert_eq!(display.get_pixel(BufferTarget::Front, 4, 5), Some(0));
    display.present();
    assert_eq!(display.get_pixel(BufferTarget::Front, 4, 5), Some(15));

    let mut frame = Vec::new();
    display.to_rgb565(&mut frame);
    assert_eq!(frame[5 * 160 + 4], 0);
    assert_eq!(frame[0], 0xffff);
}

#[test]
fn clips_lines_and_rectangles() {
    let mut display = Display::new(160, 80, GraphicsMode::Mono, font());
    display.draw_line(BufferTarget::Front, -10, 2, 10, 2, DrawOperation::Draw);
    display.draw_rectangle(BufferTarget::Front, 20, 10, 22, 12, true, DrawOperation::Draw);
    assert_eq!(display.indexed_frame().iter().filter(|&&p| p != 0).count(), 20);
}

#[test]
fn round_trips_packed_monochrome_blocks() {
    let mut display = Display::new(160, 80, GraphicsMode::Mono, font());
    let source = [0b1010_0101, 0b0101_1010];
    display.blit(BufferTarget::Back, 8, 4, 8, 2, &source, 0, false);
    assert_eq!(display.capture(BufferTarget::Back, 8, 4, 8, 2), source);
}

#[test]
fn applies_palette_entries_from_rgba_data() {
    let mut display = Display::new(240, 160, GraphicsMode::Color8, font());
    assert_eq!(display.set_palette_rgba(254, &[[1, 2, 3, 99], [4, 5, 6, 88], [7, 8, 9, 77]]), 2);
    assert_eq!(display.palette()[254], [1, 2, 3]);
    assert_eq!(display.palette()[255], [4, 5, 6]);
}

#[test]
fn renders_ascii_and_gbk_text() {
    // The LVM.bin glyphs are not at hand here: every glyph is a solid block.
    let mut display = Display::new(160, 80, GraphicsMode::Mono, vec![0xff; FONT_SIZE]);
    display.draw_text(BufferTarget::Front, 0, 0, b"LavaX", false, DrawOperation::Draw);
    assert!(display.indexed_frame().iter().any(|&pixel| pixel != 0));
}

#[test]
fn shifts_and_mirrors_the_back_buffer() {
    let mut display = Display::new(160, 80, GraphicsMode::Mono, font());
    display.draw_pixel(BufferTarget::Back, 0, 0, DrawOperation::Draw);
    display.transform(Transform::Right);
    assert_eq!(display.get_pixel(BufferTarget::Back, 1, 0), Some(1));
    display.transform(Transform::MirrorHorizontal);
    assert_eq!(display.get_pixel(BufferTarget::Back, 158, 0), Some(1));
}

#[test]
fn inverting_twice_restores_the_buffer() {
    let mut display = Display::new(160, 80, GraphicsMode::Color4, font());
    display.draw_rectangle(BufferTarget::Back, 3, 3, 9, 7, true, DrawOperation::Draw);
    let before = display.back_buffer().to_vec();
    display.draw_rectangle(BufferTarget::Back, 0, 0, 12, 12, true, DrawOperation::Invert);
    assert_ne!(display.back_buffer(), &before[..]);
    display.draw_rectangle(BufferTarget::Back, 0, 0, 12, 12, true, DrawOperation::Invert);
    assert_eq!(display.back_buffer(), &before[..]);
}

#[test]
fn clear_fills_with_the_background() {
    let mut display = Display::new(160, 80, GraphicsMode::Color4, font());
    display.set_background(3);
    display.clear(BufferTarget::Back);
    assert!(display.back_buffer().iter().all(|&pixel| pixel == 3));
    assert!(display.indexed_frame().iter().all(|&pixel| pixel == 0));
}

#[test]
fn ellipse_reaches_its_extremes() {
    let mut display = Display::new(160, 80, GraphicsMode::Mono, font());
    display.draw_ellipse(BufferTarget::Front, 50, 40, 10, 5, false, DrawOperation::Draw);
    assert_eq!(display.get_pixel(BufferTarget::Front, 60, 40), Some(1));
    assert_eq!(display.get_pixel(BufferTarget::Front, 40, 40), Some(1));
    assert_eq!(display.get_pixel(BufferTarget::Front, 50, 35), Some(1));
    assert_eq!(display.get_pixel(BufferTarget::Front, 50, 45), Some(1));
    assert_eq!(display.get_pixel(BufferTarget::Front, 50, 40), Some(0));
}

#[test]
fn xrgb_conversion_uses_the_palette() {
    let mut display = Display::new(160, 80, GraphicsMode::Mono, font());
    display.draw_pixel(BufferTarget::Front, 0, 0, DrawOperation::Draw);
    let mut frame = Vec::new();
    display.to_xrgb8888(&mut frame);
    assert_eq!(frame.len(), 160 * 80);
    assert_eq!(frame[0], 0);
    assert_eq!(frame[1], 0x0000_c000);
}

#[test]
fn rgba_conversion_is_opaque() {
    let mut display = Display::new(160, 80, GraphicsMode::Mono, font());
    display.draw_pixel(BufferTarget::Front, 1, 0, DrawOperation::Draw);
    let mut frame = Vec::new();
    display.to_rgba8888(&mut frame);
    assert_eq!(frame.len(), 160 * 80 * 4);
    assert_eq!(&frame[..8], &[0, 192, 0, 255, 0, 0, 0, 255]);
}

#[test]
fn text_stays_inside_its_glyph_cells() {
    let mut display = Display::new(160, 80, GraphicsMode::Mono, vec![0xff; FONT_SIZE]);
    display.draw_text(BufferTarget::Front, 0, 0, b"LavaX", false, DrawOperation::Draw);
    for y in 0..80 {
        for x in 0..160 {
            if display.get_pixel(BufferTarget::Front, x, y) != Some(0) {
                assert!(x < 30 && y < 12);
            }
        }
    }
    assert!(display.back_buffer().iter().all(|&pixel| pixel == 0));
}

#[test]
fn a_filled_ellipse_covers_its_axes_and_nothing_outside_its_box() {
    let mut display = Display::new(160, 80, GraphicsMode::Mono, font());
    display.draw_ellipse(BufferTarget::Back, 50, 40, 10, 5, true, DrawOperation::Draw);
    for (x, y) in [(40, 40), (60, 40), (50, 35), (50, 45)] {
        assert_eq!(display.get_pixel(BufferTarget::Back, x, y), Some(1));
    }
    for y in 0..80 {
        for x in 0..160 {
            if !(40..=60).contains(&x) || !(35..=45).contains(&y) {
                assert_eq!(display.get_pixel(BufferTarget::Back, x, y), Some(0));
            }
        }
    }
    assert!(display.indexed_frame().iter().all(|&pixel| pixel == 0));
}
