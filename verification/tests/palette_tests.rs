use palette::image::resize;
use palette::{Palette, PaletteError, PaletteOptions, Rgb};

#[test]
fn test_find_best_k_bounds() {
    // A mixed image: whatever the distribution, the estimate stays in [2, 24].
    let mut pixels = Vec::new();
    for i in 0..48u32 {
        let v = (i * 5) as u8;
        pixels.push(Rgb(v, 255 - v, (i * 11) as u8));
    }
    let palette = Palette::from_pixels(pixels, PaletteOptions::default());
    let k = palette.find_best_k().unwrap();
    assert!(k >= 2);
    assert!(k <= 24);
}

#[test]
fn test_find_best_k_uniform_is_two() {
    let pixels = vec![Rgb(200, 30, 30); 10];
    let palette = Palette::from_pixels(pixels, PaletteOptions::default());
    assert_eq!(palette.find_best_k().unwrap(), 2);
}

#[test]
fn test_find_best_k_three_hues() {
    // Pixels sitting exactly on three distinct anchors: each anchor holds a
    // third of the pixels, so exactly three anchors are present.
    let mut pixels = Vec::new();
    for _ in 0..4 {
        pixels.push(Rgb(203, 72, 41));
        pixels.push(Rgb(170, 181, 71));
        pixels.push(Rgb(0, 186, 207));
    }
    let palette = Palette::from_pixels(pixels, PaletteOptions::default());
    assert_eq!(palette.find_best_k().unwrap(), 3);
}

#[test]
fn test_find_best_k_empty_input() {
    let palette = Palette::from_pixels(Vec::new(), PaletteOptions::default());
    assert_eq!(palette.find_best_k(), Err(PaletteError::EmptyInput));
}

#[test]
fn test_inspect_empty_input() {
    let palette = Palette::from_pixels(Vec::new(), PaletteOptions::default());
    assert_eq!(palette.inspect(), Err(PaletteError::EmptyInput));
}

#[test]
fn test_inspect_uniform_image() {
    // A single repeated color: every palette entry is exactly that color.
    let color = Rgb(12, 200, 90);
    let palette = Palette::from_pixels(vec![color; 20], PaletteOptions::default());
    let ranked = palette.inspect().unwrap();
    assert!(!ranked.is_empty());
    assert!(ranked.len() <= 24);
    for entry in &ranked {
        assert_eq!(*entry, color);
    }
}

#[test]
fn test_inspect_dominant_color_first() {
    // 9 red-ish pixels against 3 blue-ish ones: the dominant entry leads.
    let mut pixels = vec![Rgb(250, 10, 10); 9];
    pixels.extend(vec![Rgb(10, 10, 250); 3]);
    let palette = Palette::from_pixels(pixels, PaletteOptions::default());
    let ranked = palette.inspect().unwrap();
    assert!(!ranked.is_empty());
    assert_eq!(ranked[0], Rgb(250, 10, 10));
}

#[test]
fn test_ignore_set_filters_pixels() {
    // Half the pixels are an ignored background color: none of them may
    // reach the pipeline, and the retained count reflects only the rest.
    let background = Rgb(0, 0, 0);
    let foreground = Rgb(210, 60, 60);
    let mut raw = Vec::new();
    for _ in 0..10 {
        raw.push(background);
        raw.push(foreground);
    }
    let options = PaletteOptions::default().ignore_colors(vec![background]);
    let palette = Palette::from_pixels(raw, options);
    assert_eq!(palette.pixels.len(), 10);
    for p in &palette.pixels {
        assert_eq!(*p, foreground);
    }
    let ranked = palette.inspect().unwrap();
    for entry in &ranked {
        assert_eq!(*entry, foreground);
    }
}

#[test]
fn test_ignore_everything_leaves_empty_input() {
    let options = PaletteOptions::default().ignore_colors(vec![Rgb(1, 2, 3)]);
    let palette = Palette::from_pixels(vec![Rgb(1, 2, 3); 5], options);
    assert_eq!(palette.pixels.len(), 0);
    assert_eq!(palette.inspect(), Err(PaletteError::EmptyInput));
}

#[test]
fn test_options_builder() {
    let options = PaletteOptions::default()
        .ignore_colors(vec![Rgb(0, 0, 0)])
        .ignore_colors(vec![Rgb(255, 255, 255)]);
    assert!(options.is_ignored(&Rgb(0, 0, 0)));
    assert!(options.is_ignored(&Rgb(255, 255, 255)));
    assert!(!options.is_ignored(&Rgb(1, 1, 1)));
}

#[test]
fn test_resize_bounds_long_side() {
    assert_eq!(resize(800, 400), (400, 200));
    assert_eq!(resize(400, 800), (200, 400));
    assert_eq!(resize(1000, 500), (400, 200));
}

#[test]
fn test_resize_small_image_unchanged() {
    assert_eq!(resize(300, 200), (300, 200));
    assert_eq!(resize(399, 399), (399, 399));
}

#[test]
fn test_resize_square_and_edge_cases() {
    assert_eq!(resize(400, 400), (400, 400));
    assert_eq!(resize(800, 200), (400, 100));
    assert_eq!(resize(200, 800), (100, 400));
}
