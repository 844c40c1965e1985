use codextool::models::WindowsTrayIconStyle;
use codextool::tray_visual::{
    dilate_mask, downsample_rgba, glyph_rows, text_sizing_reference, tray_visual_dimensions,
    visible_square, Canvas, TrayVisualPlatform,
};

#[test]
fn macos_card_and_bar_use_wider_canvases() {
    assert_eq!(
        tray_visual_dimensions(WindowsTrayIconStyle::GradientNumberCard, TrayVisualPlatform::Macos, 64),
        (85, 64)
    );
    assert_eq!(
        tray_visual_dimensions(WindowsTrayIconStyle::NumberProgressBar, TrayVisualPlatform::Macos, 64),
        (80, 64)
    );
}

#[test]
fn windows_visuals_stay_square_and_at_least_sixteen_pixels() {
    assert_eq!(
        tray_visual_dimensions(WindowsTrayIconStyle::GradientNumberCard, TrayVisualPlatform::Windows, 32),
        (32, 32)
    );
    assert_eq!(
        tray_visual_dimensions(WindowsTrayIconStyle::LogoProgressRing, TrayVisualPlatform::Macos, 4),
        (16, 16)
    );
}

#[test]
fn blending_follows_premultiplied_over() {
    let mut canvas = Canvas::new(2, 1);
    assert_eq!(canvas.pixels(), &[0u8; 8]);
    canvas.blend(1, 0, [10, 20, 30, 255]);
    assert_eq!(canvas.pixels(), &[0, 0, 0, 0, 10, 20, 30, 255]);
    canvas.blend(1, 0, [255, 255, 255, 0]);
    assert_eq!(canvas.pixels(), &[0, 0, 0, 0, 10, 20, 30, 255]);
    canvas.blend(5, 0, [255, 255, 255, 255]);
    assert_eq!(canvas.pixels(), &[0, 0, 0, 0, 10, 20, 30, 255]);
    canvas.blend(0, 0, [200, 100, 50, 128]);
    assert_eq!(canvas.pixels(), &[200, 100, 50, 128, 10, 20, 30, 255]);
}

#[test]
fn short_digit_labels_are_sized_like_seventy() {
    assert_eq!(text_sizing_reference("7"), "70");
    assert_eq!(text_sizing_reference("99"), "70");
    assert_eq!(text_sizing_reference("100"), "100");
    assert_eq!(text_sizing_reference("--"), "--");
    assert_eq!(text_sizing_reference(""), "70");
}

#[test]
fn bitmap_font_covers_digits_and_marks() {
    assert_eq!(glyph_rows('1'), [0b00100, 0b01100, 0b10100, 0b00100, 0b00100, 0b00100, 0b11111]);
    assert_eq!(glyph_rows('-'), [0, 0, 0, 0b11111, 0, 0, 0]);
    assert_eq!(glyph_rows('x'), [0; 7]);
}

#[test]
fn dilation_spreads_a_pixel_over_a_disc() {
    let mut mask = vec![0u8; 25];
    mask[12] = 200;
    let out = dilate_mask(&mask, 5, 5, 1);
    let expected: Vec<u8> = vec![
        0, 0, 0, 0, 0, //
        0, 0, 200, 0, 0, //
        0, 200, 200, 200, 0, //
        0, 0, 200, 0, 0, //
        0, 0, 0, 0, 0,
    ];
    assert_eq!(out, expected);
    let mut wide = vec![0u8; 7];
    wide[0] = 9;
    assert_eq!(dilate_mask(&wide, 3, 2, 0), vec![9, 0, 0, 0, 0, 0, 0]);
}

#[test]
fn downsample_weights_colour_by_alpha() {
    let source = vec![
        255, 0, 0, 255, 0, 0, 255, 255, //
        0, 0, 0, 0, 0, 0, 0, 0,
    ];
    let out = downsample_rgba(&source, 2, 2, 1, 1);
    assert_eq!(out, vec![128, 0, 128, 128]);
}

#[test]
fn downsample_of_transparent_box_is_transparent_black() {
    let source = vec![10, 20, 30, 0, 40, 50, 60, 0];
    let out = downsample_rgba(&source, 2, 1, 1, 1);
    assert_eq!(out, vec![0, 0, 0, 0]);
}

#[test]
fn downsample_to_same_size_keeps_opaque_pixels() {
    let source = vec![1, 2, 3, 255, 4, 5, 6, 255];
    assert_eq!(downsample_rgba(&source, 2, 1, 2, 1), source);
}

#[test]
fn visible_square_centres_on_visible_content() {
    let mut rgba = vec![0u8; 4 * 4 * 4];
    rgba[(2 * 4 + 1) * 4 + 3] = 200;
    assert_eq!(visible_square(&rgba, 4, 4), (1, 2, 2, 3));
}

#[test]
fn visible_square_of_transparent_image_is_whole_image() {
    let rgba = vec![0u8; 3 * 2 * 4];
    assert_eq!(visible_square(&rgba, 3, 2), (0, 0, 3, 2));
}

#[test]
fn visible_square_ignores_faint_pixels() {
    let mut rgba = vec![0u8; 4 * 4 * 4];
    rgba[3] = 16;
    rgba[(3 * 4 + 3) * 4 + 3] = 17;
    assert_eq!(visible_square(&rgba, 4, 4), (3, 3, 4, 4));
}
