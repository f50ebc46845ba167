use bgone::color::RgbColor;
use bgone::unmix::unmix_colors;
use bgone::unmix::unmix_colors_internal;
use bgone::unmix::DEFAULT_THRESHOLD_MILLI;

fn rgb(r: u8, g: u8, b: u8) -> RgbColor {
    RgbColor { r, g, b }
}

// Weight vectors are always nonnegative and sum to at most one (that is,
// the numerator sum never exceeds the common denominator), across modes,
// foreground counts and observed colors.
#[test]
fn weights_nonnegative_and_sum_at_most_one() {
    let backgrounds = [rgb(0, 0, 0), rgb(255, 255, 255), rgb(13, 77, 200)];
    let palettes: Vec<Vec<RgbColor>> = vec![
        vec![],
        vec![rgb(255, 0, 0)],
        vec![rgb(255, 0, 0), rgb(0, 0, 255)],
        vec![rgb(255, 0, 0), rgb(0, 255, 0), rgb(0, 0, 255)],
        vec![rgb(10, 10, 10), rgb(20, 20, 20), rgb(200, 100, 0), rgb(0, 100, 200)],
    ];
    let observations = [
        rgb(0, 0, 0),
        rgb(255, 255, 255),
        rgb(128, 0, 128),
        rgb(1, 2, 3),
        rgb(222, 120, 120),
    ];
    for bg in backgrounds.iter() {
        for fgs in palettes.iter() {
            for o in observations.iter() {
                for optimize in [false, true] {
                    if fgs.len() < 2 && !optimize {
                        continue;
                    }
                    let r = unmix_colors_internal(o, fgs, bg, optimize);
                    assert_eq!(r.weight_nums.len(), fgs.len());
                    assert!(r.weight_den >= 1);
                    let mut sum: i128 = 0;
                    for w in r.weight_nums.iter() {
                        assert!(*w >= 0);
                        sum += *w;
                    }
                    assert!(sum <= r.weight_den);
                    assert!(r.alpha_byte() <= 255);
                }
            }
        }
    }
}

// A singular foreground set (two identical colors) degrades to full weight
// on the first color rather than failing.
#[test]
fn singular_set_falls_back_to_first_color() {
    let fgs = vec![rgb(10, 20, 30), rgb(10, 20, 30)];
    let bg = rgb(0, 0, 0);
    let r = unmix_colors_internal(&rgb(200, 200, 200), &fgs, &bg, false);
    assert_eq!(r.weight_den, 1);
    assert_eq!(r.weight_nums, vec![1, 0]);
}

// The opacity-optimized search prefers the single color that explains the
// pixel alone over a washed-out least-squares split.
#[test]
fn optimized_mode_prefers_single_explanation() {
    let fgs = vec![rgb(255, 0, 0), rgb(0, 0, 255)];
    let bg = rgb(255, 255, 255);
    // Exactly 3/5 red over white.
    let observed = rgb(255, 102, 102);
    let r = unmix_colors(&observed, &fgs, &bg);
    assert_eq!(r.weight_nums[0] * 5, r.weight_den * 3);
    assert_eq!(r.weight_nums[1], 0);
}

#[test]
fn default_threshold_is_five_percent() {
    assert_eq!(DEFAULT_THRESHOLD_MILLI, 50);
}
