use bgone::background::detect_background_color;
use bgone::background::detect_background_color_with_config;
use bgone::background::BackgroundDetectionConfig;
use bgone::color::ForegroundColorSpec;
use bgone::color::RgbColor;
use bgone::color::RgbaColor;
use bgone::deduce::deduce_unknown_colors;
use bgone::deduce::select_most_different_colors;
use bgone::hist::build_histogram;
use bgone::process::trim_to_content;

fn rgb(r: u8, g: u8, b: u8) -> RgbColor {
    RgbColor { r, g, b }
}

#[test]
fn histogram_counts_first_seen() {
    let pixels = vec![rgb(1, 1, 1), rgb(2, 2, 2), rgb(1, 1, 1), rgb(3, 3, 3), rgb(1, 1, 1)];
    let h = build_histogram(&pixels);
    assert_eq!(h.len(), 3);
    assert_eq!((h[0].color, h[0].count), (rgb(1, 1, 1), 3));
    assert_eq!((h[1].color, h[1].count), (rgb(2, 2, 2), 1));
    assert_eq!((h[2].color, h[2].count), (rgb(3, 3, 3), 1));
}

#[test]
fn detects_majority_edge_color() {
    // A 3x3 grid whose border is all (10, 20, 30).
    let border = RgbaColor { r: 10, g: 20, b: 30, a: 255 };
    let center = RgbaColor { r: 200, g: 0, b: 0, a: 255 };
    let mut pixels = vec![border; 9];
    pixels[4] = center;
    assert_eq!(detect_background_color(&pixels, 3, 3), rgb(10, 20, 30));
    let config = BackgroundDetectionConfig { edge_sample_interval: 1 };
    assert_eq!(detect_background_color_with_config(&pixels, 3, 3, &config), rgb(10, 20, 30));
}

#[test]
fn known_specs_pass_through() {
    let pixels = vec![rgb(0, 0, 0); 4];
    let specs = vec![
        ForegroundColorSpec::Known(rgb(1, 2, 3)),
        ForegroundColorSpec::Known(rgb(4, 5, 6)),
    ];
    let out = deduce_unknown_colors(&pixels, &specs, &rgb(255, 255, 255), 50);
    assert_eq!(out, vec![rgb(1, 2, 3), rgb(4, 5, 6)]);
}

// On an image with no usable color variety the candidate pool is just the
// standard reference colors, and the most saturated one farthest from the
// background wins deterministically: pure red, being first seen among the
// equally distant primaries.
#[test]
fn featureless_image_resolves_to_first_primary() {
    let white = rgb(255, 255, 255);
    let pixels = vec![white; 16];
    let specs = vec![ForegroundColorSpec::Unknown];
    let out = deduce_unknown_colors(&pixels, &specs, &white, 50);
    assert_eq!(out, vec![rgb(255, 0, 0)]);
}

// Deduction is deterministic: the same image and options twice give the
// same palette.
#[test]
fn deduction_is_deterministic() {
    let white = rgb(255, 255, 255);
    let blend = rgb(222, 120, 120);
    let mut pixels = vec![white; 90];
    pixels.extend(vec![blend; 10]);
    let specs = vec![ForegroundColorSpec::Unknown];
    let a = deduce_unknown_colors(&pixels, &specs, &white, 50);
    let b = deduce_unknown_colors(&pixels, &specs, &white, 50);
    assert_eq!(a, b);
    assert_eq!(a.len(), 1);
    // The winner reconstructs the blend exactly: it lies on the line from
    // the background through the blended pixel (collinear channel
    // differences).
    let f = a[0];
    let f_diff = (f.r as i64 - 255, f.g as i64 - 255, f.b as i64 - 255);
    let o_diff = (-33i64, -135i64, -135i64);
    assert_eq!(o_diff.0 * f_diff.1, o_diff.1 * f_diff.0);
    assert_eq!(o_diff.1 * f_diff.2, o_diff.2 * f_diff.1);
}

#[test]
fn farthest_point_selection_starts_saturated() {
    let colors = vec![
        rgb(100, 100, 100),
        rgb(255, 0, 0),
        rgb(120, 110, 100),
        rgb(0, 0, 10),
    ];
    let sel = select_most_different_colors(&colors, 2);
    assert_eq!(sel.len(), 2);
    // The most saturated color (largest channel spread) is picked first.
    assert_eq!(sel[0], rgb(255, 0, 0));
}

#[test]
fn trims_to_visible_bounding_box() {
    let clear = RgbaColor { r: 0, g: 0, b: 0, a: 0 };
    let mark = RgbaColor { r: 7, g: 8, b: 9, a: 200 };
    let mut pixels = vec![clear; 9];
    pixels[4] = mark;
    let (out, w, h) = trim_to_content(&pixels, 3, 3);
    assert_eq!((w, h), (1, 1));
    assert_eq!(out, vec![mark]);
    let (out2, w2, h2) = trim_to_content(&vec![clear; 6], 3, 2);
    assert_eq!((w2, h2), (1, 1));
    assert_eq!(out2, vec![clear]);
}
