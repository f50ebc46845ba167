use bgone::color::RgbColor;
use bgone::process::composite_pixel_over_background;
use bgone::process::find_minimum_alpha_for_color;
use bgone::process::process_pixel_non_strict_no_fg;
use bgone::process::process_pixel_non_strict_with_fg;
use bgone::process::process_pixel_strict;
use bgone::color::RgbaColor;
use bgone::unmix::compute_result_color;
use bgone::unmix::is_color_close_to_foreground;
use bgone::unmix::unmix_colors;

// A pure foreground pixel in strict mode comes back fully opaque with
// weight exactly one.
#[test]
fn strict_pure_foreground_is_opaque() {
    let fg = vec![RgbColor { r: 255, g: 0, b: 0 }];
    let bg = RgbColor { r: 0, g: 0, b: 0 };
    let observed = RgbColor { r: 255, g: 0, b: 0 };
    let result = unmix_colors(&observed, &fg, &bg);
    assert_eq!(result.weight_nums.len(), 1);
    assert_eq!(result.weight_nums[0], result.weight_den);
    assert_eq!(result.alpha_byte(), 255);
    let out = process_pixel_strict(&observed, &fg, &bg);
    assert_eq!(out, RgbaColor { r: 255, g: 0, b: 0, a: 255 });
}

// Compositing a*F + (1-a)*B and unmixing against F, B recovers the exact
// blend ratio: here 3/5 of (200, 30, 30) over white lands on byte values.
#[test]
fn roundtrip_recovers_blend_ratio() {
    let f = RgbColor { r: 200, g: 30, b: 30 };
    let bg = RgbColor { r: 255, g: 255, b: 255 };
    let observed = RgbColor { r: 222, g: 120, b: 120 };
    let result = unmix_colors(&observed, &vec![f], &bg);
    // weight == 3/5 exactly
    assert_eq!(result.weight_nums[0] * 5, result.weight_den * 3);
    assert_eq!(result.alpha_byte(), 153);
}

// An exact-background pixel unmixes to alpha zero whatever the mode.
#[test]
fn exact_background_is_fully_transparent() {
    let bg = RgbColor { r: 17, g: 34, b: 51 };
    let fgs = vec![RgbColor { r: 255, g: 0, b: 0 }, RgbColor { r: 0, g: 0, b: 255 }];
    let result = unmix_colors(&bg, &fgs, &bg);
    assert_eq!(result.alpha_byte(), 0);
    let (c, a) = compute_result_color(&result, &fgs);
    assert_eq!((c, a), (RgbColor { r: 0, g: 0, b: 0 }, 0));
    let out = process_pixel_non_strict_with_fg(&bg, &fgs, &bg, 50);
    assert_eq!(out, RgbaColor { r: 0, g: 0, b: 0, a: 0 });
    let out2 = process_pixel_non_strict_no_fg(&bg, &bg);
    assert_eq!(out2, RgbaColor { r: 0, g: 0, b: 0, a: 0 });
}

// Two pure foregrounds that both contribute get renormalized to alpha one.
#[test]
fn two_color_blend_splits_weights() {
    let fgs = vec![RgbColor { r: 255, g: 0, b: 0 }, RgbColor { r: 0, g: 0, b: 255 }];
    let bg = RgbColor { r: 0, g: 0, b: 0 };
    let observed = RgbColor { r: 128, g: 0, b: 128 };
    let result = unmix_colors(&observed, &fgs, &bg);
    assert_eq!(result.weight_nums[0], result.weight_nums[1]);
    assert!(result.weight_nums[0] > 0);
    let (c, a) = compute_result_color(&result, &fgs);
    assert_eq!(c, RgbColor { r: 128, g: 0, b: 128 });
    assert_eq!(a, 255);
}

// The closeness classifier accepts pixels on a foreground blend line and
// rejects unrelated colors.
#[test]
fn closeness_classifier() {
    let fgs = vec![RgbColor { r: 200, g: 30, b: 30 }];
    let bg = RgbColor { r: 255, g: 255, b: 255 };
    let on_line = RgbColor { r: 222, g: 120, b: 120 };
    let off_line = RgbColor { r: 30, g: 200, b: 40 };
    assert!(is_color_close_to_foreground(&on_line, &fgs, &bg, 50));
    assert!(!is_color_close_to_foreground(&off_line, &fgs, &bg, 50));
}

// The minimal-alpha recovery reconstructs (128, 0, 0) over black exactly:
// alpha * fg == 128/255 per channel, with the foreground inside the cube.
#[test]
fn minimum_alpha_reconstructs_exactly() {
    let observed = RgbColor { r: 128, g: 0, b: 0 };
    let bg = RgbColor { r: 0, g: 0, b: 0 };
    let sol = find_minimum_alpha_for_color(&observed, &bg);
    // alpha in (0, 1]
    assert!(sol.alpha_num > 0 && sol.alpha_num <= sol.alpha_den);
    // exact reconstruction per channel: a*fg + (1-a)*bg == observed
    assert_eq!(
        sol.alpha_num as i128 * sol.fg_num_r as i128,
        128i128 * sol.alpha_den as i128 * sol.fg_den as i128
    );
    assert_eq!(sol.fg_num_g, 0);
    assert_eq!(sol.fg_num_b, 0);
    // the corner search finds fg = (255, 0, 0) at alpha = 128/255
    assert_eq!((sol.fg_num_r, sol.fg_den), (255, 1));
    assert_eq!((sol.alpha_num, sol.alpha_den), (128, 255));
    let out = process_pixel_non_strict_no_fg(&observed, &bg);
    assert_eq!(out, RgbaColor { r: 255, g: 0, b: 0, a: 128 });
}

// The recovered alpha is minimal in simple halves: (128, 128, 128) over
// black needs alpha about one half toward white.
#[test]
fn minimum_alpha_gray_over_black() {
    let observed = RgbColor { r: 128, g: 128, b: 128 };
    let bg = RgbColor { r: 0, g: 0, b: 0 };
    let sol = find_minimum_alpha_for_color(&observed, &bg);
    assert_eq!((sol.alpha_num, sol.alpha_den), (128, 255));
    assert_eq!((sol.fg_num_r, sol.fg_num_g, sol.fg_num_b, sol.fg_den), (255, 255, 255, 1));
}

// Compositing a translucent pixel over the background matches the rounded
// blend formula.
#[test]
fn composites_translucent_pixels() {
    let bg = RgbColor { r: 255, g: 255, b: 255 };
    let p = RgbaColor { r: 0, g: 0, b: 0, a: 128 };
    let c = composite_pixel_over_background(&p, &bg);
    // round(255 * 127 / 255) per channel
    assert_eq!(c, RgbColor { r: 127, g: 127, b: 127 });
    let opaque = RgbaColor { r: 9, g: 8, b: 7, a: 255 };
    assert_eq!(composite_pixel_over_background(&opaque, &bg), RgbColor { r: 9, g: 8, b: 7 });
}
