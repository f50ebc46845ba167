//! Background color detection by majority vote over edge and corner samples.

use vstd::prelude::*;

use crate::color::RgbColor;
use crate::color::RgbaColor;
use crate::hist::build_histogram;
use crate::hist::max_count_index;
use crate::hist::spec_histogram;
use crate::hist::spec_max_count_index;
use crate::process::spec_composite;
use crate::process::spec_px;

verus! {

/// Configuration for background detection.
pub struct BackgroundDetectionConfig {
    /// Sample every N pixels along the edges.
    pub edge_sample_interval: u32,
}

impl Default for BackgroundDetectionConfig {
    /// Sample every tenth edge pixel.
    fn default() -> (r: Self)
        ensures
            r.edge_sample_interval == 10,
    {
        BackgroundDetectionConfig { edge_sample_interval: 10 }
    }
}

/// An edge sample: the pixel at `(x, y)`, composited over black so that
/// translucent edges vote with their effective color.
pub open spec fn spec_sample(pixels: Seq<RgbaColor>, w: int, x: int, y: int) -> RgbColor {
    spec_composite(spec_px(pixels, w, x, y), (RgbColor { r: 0, g: 0, b: 0 }))
}

/// The samples along the top and bottom edges, every `iv` columns starting
/// at column `x`.
pub open spec fn spec_edge_cols(
    pixels: Seq<RgbaColor>,
    w: int,
    h: int,
    iv: int,
    x: int,
) -> Seq<RgbColor>
    decreases w - x,
{
    if x >= w || iv <= 0 {
        Seq::<RgbColor>::empty()
    } else {
        seq![spec_sample(pixels, w, x, 0), spec_sample(pixels, w, x, h - 1)] + (if x + iv >= w {
            Seq::<RgbColor>::empty()
        } else {
            spec_edge_cols(pixels, w, h, iv, x + iv)
        })
    }
}

/// The samples along the left and right edges, every `iv` rows starting at
/// row `y`.
pub open spec fn spec_edge_rows(
    pixels: Seq<RgbaColor>,
    w: int,
    h: int,
    iv: int,
    y: int,
) -> Seq<RgbColor>
    decreases h - y,
{
    if y >= h || iv <= 0 {
        Seq::<RgbColor>::empty()
    } else {
        seq![spec_sample(pixels, w, 0, y), spec_sample(pixels, w, w - 1, y)] + (if y + iv >= h {
            Seq::<RgbColor>::empty()
        } else {
            spec_edge_rows(pixels, w, h, iv, y + iv)
        })
    }
}

/// All sample colors: the four corners, then the horizontal edges, then the
/// vertical edges.
pub open spec fn spec_samples(pixels: Seq<RgbaColor>, w: int, h: int, iv: int) -> Seq<RgbColor> {
    seq![
        spec_sample(pixels, w, 0, 0),
        spec_sample(pixels, w, w - 1, 0),
        spec_sample(pixels, w, 0, h - 1),
        spec_sample(pixels, w, w - 1, h - 1),
    ] + spec_edge_cols(pixels, w, h, iv, 0) + spec_edge_rows(pixels, w, h, iv, 0)
}

/// The detected background: the first-seen most frequent sample color.
pub open spec fn spec_detect_background(
    pixels: Seq<RgbaColor>,
    w: int,
    h: int,
    iv: int,
) -> RgbColor {
    let hist = spec_histogram(spec_samples(pixels, w, h, iv));
    if hist.len() == 0 {
        (RgbColor { r: 0, g: 0, b: 0 })
    } else {
        hist[spec_max_count_index(hist)].color
    }
}

/// Read and composite one sample.
fn take_sample(pixels: &Vec<RgbaColor>, width: usize, height: usize, x: usize, y: usize) -> (r:
    RgbColor)
    requires
        pixels@.len() == width * height,
        x < width,
        y < height,
    ensures
        r == spec_sample(pixels@, width as int, x as int, y as int),
{
    proof {
        crate::process::lemma_grid_index(x as int, y as int, width as int, height as int);
        vstd::std_specs::vec::axiom_spec_len(pixels);
    }
    let p = pixels[y * width + x];
    crate::process::composite_pixel_over_background(&p, &(RgbColor { r: 0, g: 0, b: 0 }))
}

/// Detect the background color of a decoded image by sampling its corners
/// and edges and taking the first-seen most frequent effective color.
pub fn detect_background_color_with_config(
    pixels: &Vec<RgbaColor>,
    width: usize,
    height: usize,
    config: &BackgroundDetectionConfig,
) -> (r: RgbColor)
    requires
        pixels@.len() == width * height,
        1 <= width,
        1 <= height,
        1 <= config.edge_sample_interval,
    ensures
        r == spec_detect_background(
            pixels@,
            width as int,
            height as int,
            config.edge_sample_interval as int,
        ),
{
    let iv = config.edge_sample_interval as usize;
    let w = width;
    let h = height;
    let ghost wi = w as int;
    let ghost hi = h as int;
    let ghost ivi = iv as int;
    let mut samples: Vec<RgbColor> = Vec::new();
    samples.push(take_sample(pixels, width, height, 0, 0));
    samples.push(take_sample(pixels, width, height, w - 1, 0));
    samples.push(take_sample(pixels, width, height, 0, h - 1));
    samples.push(take_sample(pixels, width, height, w - 1, h - 1));
    let ghost corners = samples@;
    let mut x: usize = 0;
    while x < w
        invariant
            w == width && h == height,
            pixels@.len() == w * h,
            1 <= w && 1 <= h && 1 <= iv,
            wi == w as int && hi == h as int && ivi == iv as int,
            corners + spec_edge_cols(pixels@, wi, hi, ivi, 0) == samples@ + spec_edge_cols(
                pixels@,
                wi,
                hi,
                ivi,
                x as int,
            ),
        decreases w - x,
    {
        let s0 = take_sample(pixels, width, height, x, 0);
        let s1 = take_sample(pixels, width, height, x, h - 1);
        samples.push(s0);
        samples.push(s1);
        proof {
            assert(samples@ =~= samples@.subrange(0, samples@.len() - 2) + seq![s0, s1]);
            assert((samples@.subrange(0, samples@.len() - 2) + seq![s0, s1]) + spec_edge_cols(
                pixels@,
                wi,
                hi,
                ivi,
                x + ivi,
            ) =~= samples@.subrange(0, samples@.len() - 2) + (seq![s0, s1] + spec_edge_cols(
                pixels@,
                wi,
                hi,
                ivi,
                x + ivi,
            )));
        }
        if iv >= w - x {
            proof {
                assert(spec_edge_cols(pixels@, wi, hi, ivi, x + ivi) =~= Seq::<RgbColor>::empty());
                assert(samples@ + Seq::<RgbColor>::empty() =~= samples@);
                assert(samples@.subrange(0, samples@.len() - 2) + (seq![s0, s1] + Seq::<
                    RgbColor,
                >::empty()) =~= samples@);
            }
            x = w;
        } else {
            x = x + iv;
        }
    }
    proof {
        assert(spec_edge_cols(pixels@, wi, hi, ivi, x as int) =~= Seq::<RgbColor>::empty());
        assert(samples@ + Seq::<RgbColor>::empty() =~= samples@);
    }
    let ghost with_cols = samples@;
    let mut y: usize = 0;
    while y < h
        invariant
            w == width && h == height,
            pixels@.len() == w * h,
            1 <= w && 1 <= h && 1 <= iv,
            wi == w as int && hi == h as int && ivi == iv as int,
            with_cols + spec_edge_rows(pixels@, wi, hi, ivi, 0) == samples@ + spec_edge_rows(
                pixels@,
                wi,
                hi,
                ivi,
                y as int,
            ),
        decreases h - y,
    {
        let s0 = take_sample(pixels, width, height, 0, y);
        let s1 = take_sample(pixels, width, height, w - 1, y);
        samples.push(s0);
        samples.push(s1);
        proof {
            assert(samples@ =~= samples@.subrange(0, samples@.len() - 2) + seq![s0, s1]);
            assert((samples@.subrange(0, samples@.len() - 2) + seq![s0, s1]) + spec_edge_rows(
                pixels@,
                wi,
                hi,
                ivi,
                y + ivi,
            ) =~= samples@.subrange(0, samples@.len() - 2) + (seq![s0, s1] + spec_edge_rows(
                pixels@,
                wi,
                hi,
                ivi,
                y + ivi,
            )));
        }
        if iv >= h - y {
            proof {
                assert(spec_edge_rows(pixels@, wi, hi, ivi, y + ivi) =~= Seq::<RgbColor>::empty());
                assert(samples@.subrange(0, samples@.len() - 2) + (seq![s0, s1] + Seq::<
                    RgbColor,
                >::empty()) =~= samples@);
            }
            y = h;
        } else {
            y = y + iv;
        }
    }
    proof {
        assert(spec_edge_rows(pixels@, wi, hi, ivi, y as int) =~= Seq::<RgbColor>::empty());
        assert(samples@ + Seq::<RgbColor>::empty() =~= samples@);
        assert(samples@ =~= spec_samples(pixels@, wi, hi, ivi));
    }
    let hist = build_histogram(&samples);
    if hist.len() == 0 {
        RgbColor { r: 0, g: 0, b: 0 }
    } else {
        let i = max_count_index(&hist);
        hist[i].color
    }
}

/// Detect the background color with the default edge sampling.
pub fn detect_background_color(pixels: &Vec<RgbaColor>, width: usize, height: usize) -> (r:
    RgbColor)
    requires
        pixels@.len() == width * height,
        1 <= width,
        1 <= height,
    ensures
        r == spec_detect_background(pixels@, width as int, height as int, 10),
{
    detect_background_color_with_config(
        pixels,
        width,
        height,
        &(BackgroundDetectionConfig { edge_sample_interval: 10 }),
    )
}

} // verus!
