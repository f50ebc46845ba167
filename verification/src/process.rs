//! Per-pixel processing: compositing onto the background, recovery of the
//! smallest feasible opacity, and the per-pixel dispatch of the pipeline.

use vstd::prelude::*;

use crate::color::RgbColor;
use crate::color::RgbaColor;
use crate::math::diff_mul;
use crate::math::round_div_u128;
use crate::math::spec_round_div;
use crate::math::wide_mul_i64;

verus! {

/// Composite a translucent pixel onto the background:
/// `round((p * a + bg * (255 - a)) / 255)` per channel; a fully opaque pixel
/// is kept as it is.
pub open spec fn spec_composite(p: RgbaColor, bg: RgbColor) -> RgbColor {
    if p.a == 255 {
        (RgbColor { r: p.r, g: p.g, b: p.b })
    } else {
        (RgbColor {
            r: spec_round_div(p.r * p.a + bg.r * (255 - p.a), 255) as u8,
            g: spec_round_div(p.g * p.a + bg.g * (255 - p.a), 255) as u8,
            b: spec_round_div(p.b * p.a + bg.b * (255 - p.a), 255) as u8,
        })
    }
}

/// Product of two bytes.
fn mul_u8(a: u8, b: u8) -> (r: u32)
    ensures
        r == a * b,
        r <= 65025,
{
    proof {
        assert(0 <= (a as int) * (b as int) <= 65025) by (nonlinear_arith)
            requires
                0 <= a <= 255,
                0 <= b <= 255,
        ;
    }
    (a as u32) * (b as u32)
}

/// A convex byte blend stays within one byte times 255.
proof fn lemma_blend_bound(p: int, b: int, a: int, na: int)
    by (nonlinear_arith)
    requires
        0 <= p <= 255,
        0 <= b <= 255,
        0 <= a <= 255,
        na == 255 - a,
    ensures
        0 <= p * a + b * na <= 65025,
{
}

/// Round-half-up division of a small nonnegative value by 255, bounded so
/// the result is a byte.
fn round_div_255(n: u32) -> (r: u8)
    requires
        n <= 65025,
    ensures
        r == spec_round_div(n as int, 255),
{
    round_div_u128(n as u128, 255) as u8
}

/// Composite a pixel with pre-existing translucency onto the background
/// color, yielding the opaque color the pipeline works on.
pub fn composite_pixel_over_background(pixel: &RgbaColor, background: &RgbColor) -> (r: RgbColor)
    ensures
        r == spec_composite(*pixel, *background),
{
    if pixel.a == 255 {
        RgbColor { r: pixel.r, g: pixel.g, b: pixel.b }
    } else {
        let a = pixel.a;
        let na = 255 - a;
        proof {
            lemma_blend_bound(pixel.r as int, background.r as int, a as int, na as int);
            lemma_blend_bound(pixel.g as int, background.g as int, a as int, na as int);
            lemma_blend_bound(pixel.b as int, background.b as int, a as int, na as int);
        }
        RgbColor {
            r: round_div_255(mul_u8(pixel.r, a) + mul_u8(background.r, na)),
            g: round_div_255(mul_u8(pixel.g, a) + mul_u8(background.g, na)),
            b: round_div_255(mul_u8(pixel.b, a) + mul_u8(background.b, na)),
        }
    }
}

/// A recovered minimal-opacity decomposition: an exact rational foreground
/// (byte-scaled channels over `fg_den`) and an exact rational alpha.
pub struct RecoveredForeground {
    pub fg_num_r: i64,
    pub fg_num_g: i64,
    pub fg_num_b: i64,
    pub fg_den: i64,
    pub alpha_num: i64,
    pub alpha_den: i64,
}

impl RecoveredForeground {
    /// Channels lie in `[0, 255]` and alpha in `(0, 1]`.
    pub open spec fn wf(self) -> bool {
        &&& 1 <= self.fg_den <= 1000
        &&& 0 <= self.fg_num_r <= 255 * self.fg_den
        &&& 0 <= self.fg_num_g <= 255 * self.fg_den
        &&& 0 <= self.fg_num_b <= 255 * self.fg_den
        &&& 1 <= self.alpha_den <= 1000
        &&& 0 < self.alpha_num <= self.alpha_den
    }

    /// The decomposition reconstructs the observed color exactly:
    /// `alpha * fg + (1 - alpha) * bg == observed`, per channel, cleared of
    /// denominators.
    pub open spec fn reconstructs(self, o: RgbColor, bg: RgbColor) -> bool {
        &&& self.alpha_num * self.fg_num_r + (self.alpha_den - self.alpha_num) * bg.r * self.fg_den
            == o.r * self.alpha_den * self.fg_den
        &&& self.alpha_num * self.fg_num_g + (self.alpha_den - self.alpha_num) * bg.g * self.fg_den
            == o.g * self.alpha_den * self.fg_den
        &&& self.alpha_num * self.fg_num_b + (self.alpha_den - self.alpha_num) * bg.b * self.fg_den
            == o.b * self.alpha_den * self.fg_den
    }

    /// The foreground rounded to bytes.
    pub fn fg_bytes(&self) -> (c: RgbColor)
        requires
            self.wf(),
        ensures
            c.r == spec_round_div(self.fg_num_r as int, self.fg_den as int),
            c.g == spec_round_div(self.fg_num_g as int, self.fg_den as int),
            c.b == spec_round_div(self.fg_num_b as int, self.fg_den as int),
    {
        RgbColor {
            r: round_div_u128(self.fg_num_r as u128, self.fg_den as u128) as u8,
            g: round_div_u128(self.fg_num_g as u128, self.fg_den as u128) as u8,
            b: round_div_u128(self.fg_num_b as u128, self.fg_den as u128) as u8,
        }
    }

    /// The alpha rounded to a byte.
    pub fn alpha_byte(&self) -> (a: u8)
        requires
            self.wf(),
        ensures
            a == spec_round_div(255 * self.alpha_num, self.alpha_den as int),
    {
        round_div_u128(255 * self.alpha_num as u128, self.alpha_den as u128) as u8
    }
}

/// Channel `ch` of corner `idx` (three bits, highest bit red): 0 or 255.
pub open spec fn corner_chan(idx: int, ch: int) -> int {
    if ch == 0 {
        255 * (idx / 4 % 2)
    } else if ch == 1 {
        255 * (idx / 2 % 2)
    } else {
        255 * (idx % 2)
    }
}

pub open spec fn byte_chan(c: RgbColor, ch: int) -> int {
    if ch == 0 {
        c.r as int
    } else if ch == 1 {
        c.g as int
    } else {
        c.b as int
    }
}

/// The exact alpha a corner foreground requires, if the corner is feasible:
/// the first channel where corner and background differ fixes the ratio, the
/// other channels must agree with it exactly, and channels where they do not
/// differ must match the background.  The result is sign-normalized and only
/// kept in `(0, 1]`.
pub open spec fn spec_corner_alpha(o: RgbColor, bg: RgbColor, idx: int) -> Option<(int, int)> {
    let f0 = corner_chan(idx, 0);
    let f1 = corner_chan(idx, 1);
    let f2 = corner_chan(idx, 2);
    let p = if f0 != bg.r {
        0int
    } else if f1 != bg.g {
        1int
    } else if f2 != bg.b {
        2int
    } else {
        3int
    };
    if p == 3 {
        None
    } else {
        let num0 = byte_chan(o, p) - byte_chan(bg, p);
        let den0 = corner_chan(idx, p) - byte_chan(bg, p);
        let ok0 = corner_chan(idx, 0) == bg.r ==> o.r == bg.r;
        let ok1 = corner_chan(idx, 1) == bg.g ==> o.g == bg.g;
        let ok2 = corner_chan(idx, 2) == bg.b ==> o.b == bg.b;
        let e0 = corner_chan(idx, 0) != bg.r ==> (o.r - bg.r) * den0 == num0 * (corner_chan(idx, 0)
            - bg.r);
        let e1 = corner_chan(idx, 1) != bg.g ==> (o.g - bg.g) * den0 == num0 * (corner_chan(idx, 1)
            - bg.g);
        let e2 = corner_chan(idx, 2) != bg.b ==> (o.b - bg.b) * den0 == num0 * (corner_chan(idx, 2)
            - bg.b);
        if ok0 && ok1 && ok2 && e0 && e1 && e2 {
            let num = if den0 < 0 {
                -num0
            } else {
                num0
            };
            let den = if den0 < 0 {
                -den0
            } else {
                den0
            };
            if 0 < num && num <= den {
                Some((num, den))
            } else {
                None
            }
        } else {
            None
        }
    }
}

/// Fold over the 8 corners, keeping the strictly smallest feasible alpha.
/// The state is `((fg_r, fg_g, fg_b, fg_den), (alpha_num, alpha_den))`.
pub open spec fn spec_corner_fold(
    o: RgbColor,
    bg: RgbColor,
    idx: int,
    cur: ((int, int, int, int), (int, int)),
) -> ((int, int, int, int), (int, int))
    decreases 8 - idx,
{
    if idx < 0 || idx >= 8 {
        cur
    } else {
        let next = match spec_corner_alpha(o, bg, idx) {
            Some((num, den)) => if num * cur.1.1 < cur.1.0 * den {
                ((corner_chan(idx, 0), corner_chan(idx, 1), corner_chan(idx, 2), 1), (num, den))
            } else {
                cur
            },
            None => cur,
        };
        spec_corner_fold(o, bg, idx + 1, next)
    }
}

/// Whether the foreground implied by `alpha = k/1000` lies in the color
/// cube: `0 <= 1000*o - (1000-k)*bg <= 255*k` per channel.
pub open spec fn spec_scan_hit(o: RgbColor, bg: RgbColor, k: int) -> bool {
    &&& 0 <= 1000 * o.r - (1000 - k) * bg.r <= 255 * k
    &&& 0 <= 1000 * o.g - (1000 - k) * bg.g <= 255 * k
    &&& 0 <= 1000 * o.b - (1000 - k) * bg.b <= 255 * k
}

/// The first step of the upward alpha scan that yields a feasible
/// foreground, stopping (empty-handed) at the first step that is no smaller
/// than the bound.
pub open spec fn spec_scan_first(o: RgbColor, bg: RgbColor, k: int, bn: int, bd: int) -> Option<
    int,
>
    decreases 1001 - k,
{
    if k < 1 || k > 1000 {
        None
    } else if k * bd >= bn * 1000 {
        None
    } else if spec_scan_hit(o, bg, k) {
        Some(k)
    } else {
        spec_scan_first(o, bg, k + 1, bn, bd)
    }
}

/// The recovered minimal decomposition: the best corner (starting from the
/// trivial `alpha = 1`, `fg = observed`), improved by the scan when the scan
/// finds a feasible alpha strictly below it.
pub open spec fn spec_recover(o: RgbColor, bg: RgbColor) -> ((int, int, int, int), (int, int)) {
    let corner = spec_corner_fold(o, bg, 0, ((o.r as int, o.g as int, o.b as int, 1), (1, 1)));
    match spec_scan_first(o, bg, 1, corner.1.0, corner.1.1) {
        Some(k) => (
            (
                1000 * o.r - (1000 - k) * bg.r,
                1000 * o.g - (1000 - k) * bg.g,
                1000 * o.b - (1000 - k) * bg.b,
                k,
            ),
            (k, 1000),
        ),
        None => corner,
    }
}

/// A channel of a corner candidate that passes the exact consistency checks
/// reconstructs that channel of the pixel.
proof fn lemma_corner_channel(oc: int, bc: int, fc: int, num0: int, den0: int, num: int, den: int)
    by (nonlinear_arith)
    requires
        fc != bc ==> (oc - bc) * den0 == num0 * (fc - bc),
        fc == bc ==> oc == bc,
        den0 < 0 ==> num == -num0 && den == -den0,
        den0 >= 0 ==> num == num0 && den == den0,
        den0 != 0 || fc == bc,
    ensures
        num * fc + (den - num) * bc * 1 == oc * den * 1,
{
}

/// The products in a scan step stay small.
proof fn lemma_scan_term_bounds(k: int, br: int, bgc: int, bb: int)
    by (nonlinear_arith)
    requires
        1 <= k <= 1000,
        0 <= br <= 255,
        0 <= bgc <= 255,
        0 <= bb <= 255,
    ensures
        0 <= (1000 - k) * br <= 254745,
        0 <= (1000 - k) * bgc <= 254745,
        0 <= (1000 - k) * bb <= 254745,
{
}

/// The foreground implied by a feasible scan step reconstructs the pixel.
proof fn lemma_scan_channel(oc: int, bc: int, k: int, v: int)
    by (nonlinear_arith)
    requires
        v == 1000 * oc - (1000 - k) * bc,
    ensures
        k * v + (1000 - k) * bc * k == oc * 1000 * k,
{
}

/// The first feasible step of the upward alpha scan, strictly below the
/// bound `bn/bd`.
fn scan_first(obs: &RgbColor, background: &RgbColor, bn: i64, bd: i64) -> (r: Option<i64>)
    requires
        1 <= bd <= 255,
        0 < bn <= bd,
    ensures
        (r is Some <==> spec_scan_first(*obs, *background, 1, bn as int, bd as int) is Some),
        r is Some ==> Some(r->0 as int) == spec_scan_first(
            *obs,
            *background,
            1,
            bn as int,
            bd as int,
        ) && 1 <= r->0 <= 1000 && spec_scan_hit(*obs, *background, r->0 as int),
{
    let o = *obs;
    let bg = *background;
    let mut k: i64 = 1;
    while k <= 1000
        invariant
            1 <= k <= 1001,
            o == *obs,
            bg == *background,
            1 <= bd <= 255,
            0 < bn <= bd,
            spec_scan_first(o, bg, k as int, bn as int, bd as int) == spec_scan_first(
                o,
                bg,
                1,
                bn as int,
                bd as int,
            ),
        decreases 1001 - k,
    {
        if wide_mul_i64(k, bd) >= wide_mul_i64(bn, 1000) {
            return None;
        }
        proof {
            lemma_scan_term_bounds(k as int, bg.r as int, bg.g as int, bg.b as int);
        }
        let v0 = 1000 * (o.r as i64) - wide_mul_i64(1000 - k, bg.r as i64) as i64;
        let v1 = 1000 * (o.g as i64) - wide_mul_i64(1000 - k, bg.g as i64) as i64;
        let v2 = 1000 * (o.b as i64) - wide_mul_i64(1000 - k, bg.b as i64) as i64;
        if 0 <= v0 && v0 <= 255 * k && 0 <= v1 && v1 <= 255 * k && 0 <= v2 && v2 <= 255 * k {
            return Some(k);
        }
        k = k + 1;
    }
    None
}

/// Find the smallest opacity in `(0, 1]` for which some foreground color
/// inside the color cube exactly reconstructs the observed color over the
/// background: an exact search of the 8 color-cube corners, refined by an
/// upward scan of alpha in steps of one thousandth.  The trivial solution
/// (`alpha = 1`, foreground = observed) always exists, so the result always
/// reconstructs the pixel exactly.
pub fn find_minimum_alpha_for_color(obs: &RgbColor, background: &RgbColor) -> (r:
    RecoveredForeground)
    ensures
        r.wf(),
        r.reconstructs(*obs, *background),
        ((r.fg_num_r as int, r.fg_num_g as int, r.fg_num_b as int, r.fg_den as int), (
            r.alpha_num as int,
            r.alpha_den as int,
        )) == spec_recover(*obs, *background),
{
    let o = *obs;
    let bg = *background;
    let mut fr: i64 = o.r as i64;
    let mut fgn: i64 = o.g as i64;
    let mut fb: i64 = o.b as i64;
    let mut an: i64 = 1;
    let mut ad: i64 = 1;
    let mut idx: usize = 0;
    proof {
        assert(1int * o.r + (1int - 1int) * bg.r * 1 == o.r * 1 * 1) by (nonlinear_arith);
        assert(1int * o.g + (1int - 1int) * bg.g * 1 == o.g * 1 * 1) by (nonlinear_arith);
        assert(1int * o.b + (1int - 1int) * bg.b * 1 == o.b * 1 * 1) by (nonlinear_arith);
    }
    while idx < 8
        invariant
            idx <= 8,
            o == *obs,
            bg == *background,
            1 <= ad <= 255,
            0 < an <= ad,
            0 <= fr <= 255 && 0 <= fgn <= 255 && 0 <= fb <= 255,
            an * fr + (ad - an) * bg.r * 1 == o.r * ad * 1,
            an * fgn + (ad - an) * bg.g * 1 == o.g * ad * 1,
            an * fb + (ad - an) * bg.b * 1 == o.b * ad * 1,
            spec_corner_fold(o, bg, idx as int, ((fr as int, fgn as int, fb as int, 1int), (
                an as int,
                ad as int,
            ))) == spec_corner_fold(o, bg, 0, ((o.r as int, o.g as int, o.b as int, 1int), (1int, 1int))),
        decreases 8 - idx,
    {
        let ghost cur = ((fr as int, fgn as int, fb as int, 1int), (an as int, ad as int));
        let c0: i64 = 255 * ((idx as i64) / 4 % 2);
        let c1: i64 = 255 * ((idx as i64) / 2 % 2);
        let c2: i64 = 255 * ((idx as i64) % 2);
        proof {
            assert(c0 == corner_chan(idx as int, 0));
            assert(c1 == corner_chan(idx as int, 1));
            assert(c2 == corner_chan(idx as int, 2));
        }
        // The first channel where the corner differs from the background
        // fixes the candidate alpha; the rest must agree exactly.
        let p: usize = if c0 != bg.r as i64 {
            0
        } else if c1 != bg.g as i64 {
            1
        } else if c2 != bg.b as i64 {
            2
        } else {
            3
        };
        if p < 3 {
            let op: i64 = if p == 0 {
                o.r as i64
            } else if p == 1 {
                o.g as i64
            } else {
                o.b as i64
            };
            let bp: i64 = if p == 0 {
                bg.r as i64
            } else if p == 1 {
                bg.g as i64
            } else {
                bg.b as i64
            };
            let fp: i64 = if p == 0 {
                c0
            } else if p == 1 {
                c1
            } else {
                c2
            };
            let num0 = op - bp;
            let den0 = fp - bp;
            let ok0 = c0 != bg.r as i64 || o.r == bg.r;
            let ok1 = c1 != bg.g as i64 || o.g == bg.g;
            let ok2 = c2 != bg.b as i64 || o.b == bg.b;
            let e0 = c0 == bg.r as i64 || diff_mul(o.r as i64 - bg.r as i64, den0) == diff_mul(
                num0,
                c0 - bg.r as i64,
            );
            let e1 = c1 == bg.g as i64 || diff_mul(o.g as i64 - bg.g as i64, den0) == diff_mul(
                num0,
                c1 - bg.g as i64,
            );
            let e2 = c2 == bg.b as i64 || diff_mul(o.b as i64 - bg.b as i64, den0) == diff_mul(
                num0,
                c2 - bg.b as i64,
            );
            if ok0 && ok1 && ok2 && e0 && e1 && e2 {
                let num = if den0 < 0 {
                    -num0
                } else {
                    num0
                };
                let den = if den0 < 0 {
                    -den0
                } else {
                    den0
                };
                if 0 < num && num <= den {
                    // Keep the corner only if it is strictly better.
                    if diff_mul(num, ad) < diff_mul(an, den) {
                        proof {
                            lemma_corner_channel(
                                o.r as int, bg.r as int, c0 as int,
                                num0 as int, den0 as int, num as int, den as int,
                            );
                            lemma_corner_channel(
                                o.g as int, bg.g as int, c1 as int,
                                num0 as int, den0 as int, num as int, den as int,
                            );
                            lemma_corner_channel(
                                o.b as int, bg.b as int, c2 as int,
                                num0 as int, den0 as int, num as int, den as int,
                            );
                        }
                        fr = c0;
                        fgn = c1;
                        fb = c2;
                        an = num;
                        ad = den;
                    }
                }
            }
        }
        proof {
            assert(spec_corner_fold(o, bg, idx as int, cur) == spec_corner_fold(
                o,
                bg,
                idx as int + 1,
                ((fr as int, fgn as int, fb as int, 1int), (an as int, ad as int)),
            ));
        }
        idx = idx + 1;
    }
    // Upward scan in thousandths, bounded by the corner result.
    match scan_first(obs, background, an, ad) {
        Some(k) => {
            proof {
                lemma_scan_term_bounds(k as int, bg.r as int, bg.g as int, bg.b as int);
            }
            let v0 = 1000 * (o.r as i64) - wide_mul_i64(1000 - k, bg.r as i64) as i64;
            let v1 = 1000 * (o.g as i64) - wide_mul_i64(1000 - k, bg.g as i64) as i64;
            let v2 = 1000 * (o.b as i64) - wide_mul_i64(1000 - k, bg.b as i64) as i64;
            proof {
                lemma_scan_channel(o.r as int, bg.r as int, k as int, v0 as int);
                lemma_scan_channel(o.g as int, bg.g as int, k as int, v1 as int);
                lemma_scan_channel(o.b as int, bg.b as int, k as int, v2 as int);
            }
            RecoveredForeground {
                fg_num_r: v0,
                fg_num_g: v1,
                fg_num_b: v2,
                fg_den: k,
                alpha_num: k,
                alpha_den: 1000,
            }
        },
        None => RecoveredForeground {
            fg_num_r: fr,
            fg_num_g: fgn,
            fg_num_b: fb,
            fg_den: 1,
            alpha_num: an,
            alpha_den: ad,
        },
    }
}

/// The recovered minimal decomposition, rounded to output bytes.
pub open spec fn spec_recovered_pixel(o: RgbColor, bg: RgbColor) -> RgbaColor {
    let sol = spec_recover(o, bg);
    (RgbaColor {
        r: spec_round_div(sol.0.0, sol.0.3) as u8,
        g: spec_round_div(sol.0.1, sol.0.3) as u8,
        b: spec_round_div(sol.0.2, sol.0.3) as u8,
        a: spec_round_div(255 * sol.1.0, sol.1.1) as u8,
    })
}

/// Non-strict processing with no foreground colors: exact background pixels
/// become fully transparent, everything else gets the minimal-alpha
/// decomposition.
pub open spec fn spec_pixel_no_fg(o: RgbColor, bg: RgbColor) -> RgbaColor {
    if o == bg {
        (RgbaColor { r: 0, g: 0, b: 0, a: 0 })
    } else {
        spec_recovered_pixel(o, bg)
    }
}

/// Strict processing: opacity-optimized unmixing against the resolved
/// foreground list, blended to an output color and alpha byte.
pub open spec fn spec_pixel_strict(o: RgbColor, fgs: Seq<RgbColor>, bg: RgbColor) -> RgbaColor {
    let nd = crate::unmix::spec_unmix(o, fgs, bg, true);
    let c = crate::unmix::spec_result_rgb(nd.0, fgs);
    (RgbaColor {
        r: c.r,
        g: c.g,
        b: c.b,
        a: spec_round_div(255 * crate::math::sum_int(nd.0), nd.1) as u8,
    })
}

/// Non-strict processing with foreground colors: background pixels become
/// transparent, pixels close to some single foreground are unmixed against
/// the list, anything else keeps its own color at minimal alpha.
pub open spec fn spec_pixel_with_fg(
    o: RgbColor,
    fgs: Seq<RgbColor>,
    bg: RgbColor,
    threshold_milli: int,
) -> RgbaColor {
    if o == bg {
        (RgbaColor { r: 0, g: 0, b: 0, a: 0 })
    } else if crate::unmix::spec_close_any(o, fgs, bg, threshold_milli) {
        spec_pixel_strict(o, fgs, bg)
    } else {
        spec_recovered_pixel(o, bg)
    }
}

/// Round a recovered decomposition to an output pixel.
fn recovered_pixel(observed: &RgbColor, background: &RgbColor) -> (r: RgbaColor)
    ensures
        r == spec_recovered_pixel(*observed, *background),
{
    let sol = find_minimum_alpha_for_color(observed, background);
    let c = sol.fg_bytes();
    let a = sol.alpha_byte();
    RgbaColor { r: c.r, g: c.g, b: c.b, a }
}

/// Process one pixel in non-strict mode without foreground colors.
pub fn process_pixel_non_strict_no_fg(observed: &RgbColor, background: &RgbColor) -> (r: RgbaColor)
    ensures
        r == spec_pixel_no_fg(*observed, *background),
        *observed == *background ==> r.a == 0,
{
    if observed.r == background.r && observed.g == background.g && observed.b == background.b {
        RgbaColor { r: 0, g: 0, b: 0, a: 0 }
    } else {
        recovered_pixel(observed, background)
    }
}

/// Process one pixel in strict mode: unmix against the resolved foreground
/// list, optimizing opacity.
pub fn process_pixel_strict(
    observed: &RgbColor,
    foreground_colors: &Vec<RgbColor>,
    background: &RgbColor,
) -> (r: RgbaColor)
    ensures
        r == spec_pixel_strict(*observed, foreground_colors@, *background),
{
    let unmix_result = crate::unmix::unmix_colors(observed, foreground_colors, background);
    let (c, a) = crate::unmix::compute_result_color(&unmix_result, foreground_colors);
    RgbaColor { r: c.r, g: c.g, b: c.b, a }
}

/// Process one pixel in non-strict mode with foreground colors: pixels close
/// to a declared foreground are unmixed against the list, others keep their
/// own color at the smallest feasible opacity.
pub fn process_pixel_non_strict_with_fg(
    observed: &RgbColor,
    foreground_colors: &Vec<RgbColor>,
    background: &RgbColor,
    threshold_milli: u32,
) -> (r: RgbaColor)
    requires
        threshold_milli <= 1000,
    ensures
        r == spec_pixel_with_fg(
            *observed,
            foreground_colors@,
            *background,
            threshold_milli as int,
        ),
        *observed == *background ==> r.a == 0,
{
    if observed.r == background.r && observed.g == background.g && observed.b == background.b {
        RgbaColor { r: 0, g: 0, b: 0, a: 0 }
    } else if crate::unmix::is_color_close_to_foreground(
        observed,
        foreground_colors,
        background,
        threshold_milli,
    ) {
        process_pixel_strict(observed, foreground_colors, background)
    } else {
        recovered_pixel(observed, background)
    }
}

/// An exact-background pixel always comes out fully transparent, in every
/// mode: the explicit shortcut covers the non-strict paths, and for strict
/// unmixing every recovered weight is zero.
pub proof fn lemma_exact_background_pixel(
    o: RgbColor,
    fgs: Seq<RgbColor>,
    bg: RgbColor,
    threshold_milli: int,
)
    requires
        o == bg,
    ensures
        spec_pixel_strict(o, fgs, bg) == (RgbaColor { r: 0, g: 0, b: 0, a: 0 }),
        spec_pixel_no_fg(o, bg) == (RgbaColor { r: 0, g: 0, b: 0, a: 0 }),
        spec_pixel_with_fg(o, fgs, bg, threshold_milli) == (RgbaColor { r: 0, g: 0, b: 0, a: 0 }),
{
    crate::unmix::lemma_unmix_exact_background(o, fgs, bg);
    let nd = crate::unmix::spec_unmix(o, fgs, bg, true);
    let s = crate::math::sum_int(nd.0);
    assert(255 * s == 0);
    assert(spec_round_div(0, nd.1) == 0) by (nonlinear_arith)
        requires
            nd.1 >= 1,
    ;
}

/// Pixel at grid position `(x, y)` of a row-major pixel sequence.
pub open spec fn spec_px(pixels: Seq<RgbaColor>, w: int, x: int, y: int) -> RgbaColor {
    pixels[y * w + x]
}

/// Whether the pixel at `(x, y)` is not fully transparent.
pub open spec fn spec_content(pixels: Seq<RgbaColor>, w: int, x: int, y: int) -> bool {
    spec_px(pixels, w, x, y).a > 0
}

/// `(x0, y0)..=(x1, y1)` is the bounding box of the non-transparent pixels.
pub open spec fn spec_is_bbox(
    pixels: Seq<RgbaColor>,
    w: int,
    h: int,
    x0: int,
    y0: int,
    x1: int,
    y1: int,
) -> bool {
    &&& 0 <= x0 <= x1 < w
    &&& 0 <= y0 <= y1 < h
    &&& forall|x: int, y: int|
        0 <= x < w && 0 <= y < h && spec_content(pixels, w, x, y) ==> x0 <= x <= x1 && y0 <= y
            <= y1
    &&& exists|y: int| 0 <= y < h && spec_content(pixels, w, x0, y)
    &&& exists|y: int| 0 <= y < h && spec_content(pixels, w, x1, y)
    &&& exists|x: int| 0 <= x < w && spec_content(pixels, w, x, y0)
    &&& exists|x: int| 0 <= x < w && spec_content(pixels, w, x, y1)
}

/// A grid index stays inside the pixel buffer.
pub proof fn lemma_grid_index(x: int, y: int, w: int, h: int)
    by (nonlinear_arith)
    requires
        0 <= x < w,
        0 <= y < h,
    ensures
        0 <= y * w + x < w * h,
{
}

/// What cropping to the bounding box `(x0, y0)` with size `ow * oh` means:
/// the box bounds the content, and the output reads the source row-major.
pub open spec fn spec_is_crop(
    pixels: Seq<RgbaColor>,
    w: int,
    h: int,
    x0: int,
    y0: int,
    out: Seq<RgbaColor>,
    ow: int,
    oh: int,
) -> bool {
    &&& spec_is_bbox(pixels, w, h, x0, y0, x0 + ow - 1, y0 + oh - 1)
    &&& out.len() == ow * oh
    &&& 1 <= ow <= w && 1 <= oh <= h
    &&& forall|i: int|
        0 <= i < out.len() ==> out[i] == spec_px(pixels, w, x0 + i % ow, y0 + i / ow)
}

/// The contract of trimming: a single transparent pixel when there is no
/// content, otherwise the unique bounding-box crop.
pub open spec fn spec_trimmed(
    pixels: Seq<RgbaColor>,
    w: int,
    h: int,
    out: Seq<RgbaColor>,
    ow: int,
    oh: int,
) -> bool {
    if exists|x: int, y: int| 0 <= x < w && 0 <= y < h && spec_content(pixels, w, x, y) {
        exists|x0: int, y0: int| #[trigger] spec_is_crop(pixels, w, h, x0, y0, out, ow, oh)
    } else {
        out == seq![(RgbaColor { r: 0, g: 0, b: 0, a: 0 })] && ow == 1 && oh == 1
    }
}

/// Whether any pixel of the grid is not fully transparent.
pub open spec fn spec_has_content(pixels: Seq<RgbaColor>, w: int, h: int) -> bool {
    exists|x: int, y: int| 0 <= x < w && 0 <= y < h && spec_content(pixels, w, x, y)
}

/// The trimmed image as a function of the input: bounding boxes are unique,
/// so the choice below is determined.
pub open spec fn spec_trim_fn(pixels: Seq<RgbaColor>, w: int, h: int) -> (Seq<RgbaColor>, int, int) {
    if spec_has_content(pixels, w, h) {
        let (x0, y0, x1, y1) = choose|x0: int, y0: int, x1: int, y1: int|
            spec_is_bbox(pixels, w, h, x0, y0, x1, y1);
        let ow = x1 - x0 + 1;
        let oh = y1 - y0 + 1;
        (
            Seq::new((ow * oh) as nat, |i: int| spec_px(pixels, w, x0 + i % ow, y0 + i / ow)),
            ow,
            oh,
        )
    } else {
        (seq![(RgbaColor { r: 0, g: 0, b: 0, a: 0 })], 1, 1)
    }
}

/// Bounding boxes are unique.
pub proof fn lemma_bbox_unique(
    pixels: Seq<RgbaColor>,
    w: int,
    h: int,
    a0: int, b0: int, a1: int, b1: int,
    c0: int, d0: int, c1: int, d1: int,
)
    requires
        spec_is_bbox(pixels, w, h, a0, b0, a1, b1),
        spec_is_bbox(pixels, w, h, c0, d0, c1, d1),
    ensures
        a0 == c0 && b0 == d0 && a1 == c1 && b1 == d1,
{
}

/// Any output admitted by [`spec_trimmed`] is the one [`spec_trim_fn`]
/// names.
pub proof fn lemma_trimmed_is_fn(
    pixels: Seq<RgbaColor>,
    w: int,
    h: int,
    out: Seq<RgbaColor>,
    ow: int,
    oh: int,
)
    requires
        spec_trimmed(pixels, w, h, out, ow, oh),
    ensures
        (out, ow, oh) == spec_trim_fn(pixels, w, h),
{
    if spec_has_content(pixels, w, h) {
        let (x0, y0) = choose|x0: int, y0: int| #[trigger] spec_is_crop(
            pixels,
            w,
            h,
            x0,
            y0,
            out,
            ow,
            oh,
        );
        assert(spec_is_crop(pixels, w, h, x0, y0, out, ow, oh));
        let (cx0, cy0, cx1, cy1) = choose|a: int, b: int, c: int, d: int|
            spec_is_bbox(pixels, w, h, a, b, c, d);
        assert(spec_is_bbox(pixels, w, h, cx0, cy0, cx1, cy1));
        lemma_bbox_unique(
            pixels, w, h,
            x0, y0, x0 + ow - 1, y0 + oh - 1,
            cx0, cy0, cx1, cy1,
        );
        let fnout = spec_trim_fn(pixels, w, h).0;
        assert(out =~= fnout);
    }
}

/// A trimmed image is no larger than its source (or a single pixel).
pub proof fn lemma_trim_size(
    pixels: Seq<RgbaColor>,
    w: int,
    h: int,
    out: Seq<RgbaColor>,
    ow: int,
    oh: int,
)
    requires
        spec_trimmed(pixels, w, h, out, ow, oh),
    ensures
        out.len() <= w * h || (out.len() == 1 && ow == 1 && oh == 1),
        1 <= ow && 1 <= oh,
        ow <= w || ow == 1,
        oh <= h || oh == 1,
{
    if spec_has_content(pixels, w, h) {
        let (x0, y0) = choose|x0: int, y0: int| #[trigger] spec_is_crop(
            pixels,
            w,
            h,
            x0,
            y0,
            out,
            ow,
            oh,
        );
        assert(spec_is_crop(pixels, w, h, x0, y0, out, ow, oh));
        assert(ow * oh <= w * h) by (nonlinear_arith)
            requires
                1 <= ow <= w,
                1 <= oh <= h,
        ;
    }
}

/// Crop an image to the bounding box of its non-transparent pixels; an image
/// with no such pixel (or no pixels at all) becomes a single transparent
/// pixel.
pub fn trim_to_content(pixels: &Vec<RgbaColor>, width: usize, height: usize) -> (r: (
    Vec<RgbaColor>,
    usize,
    usize,
))
    requires
        pixels@.len() == width * height,
    ensures
        spec_trimmed(pixels@, width as int, height as int, r.0@, r.1 as int, r.2 as int),
{
    let w = width;
    let h = height;
    let mut found = false;
    let mut minx: usize = 0;
    let mut miny: usize = 0;
    let mut maxx: usize = 0;
    let mut maxy: usize = 0;
    let mut y: usize = 0;
    proof {
        vstd::std_specs::vec::axiom_spec_len(pixels);
    }
    while y < h
        invariant
            y <= h,
            pixels@.len() == w * h,
            w * h <= usize::MAX,
            found ==> minx <= maxx < w && miny <= maxy < h,
            found ==> (exists|yy: int|
                0 <= yy < y && spec_content(pixels@, w as int, minx as int, yy)),
            found ==> (exists|yy: int|
                0 <= yy < y && spec_content(pixels@, w as int, maxx as int, yy)),
            found ==> (exists|xx: int|
                0 <= xx < w && spec_content(pixels@, w as int, xx, miny as int)),
            found ==> (exists|xx: int|
                0 <= xx < w && spec_content(pixels@, w as int, xx, maxy as int)),
            found ==> miny < y && maxy < y,
            forall|xx: int, yy: int|
                0 <= xx < w && 0 <= yy < y && spec_content(pixels@, w as int, xx, yy) ==> found
                    && minx <= xx <= maxx && miny <= yy <= maxy,
        decreases h - y,
    {
        let mut x: usize = 0;
        while x < w
            invariant
                x <= w,
                y < h,
                pixels@.len() == w * h,
                w * h <= usize::MAX,
                found ==> minx <= maxx < w && miny <= maxy < h,
                found ==> (exists|yy: int|
                    0 <= yy <= y && spec_content(pixels@, w as int, minx as int, yy)),
                found ==> (exists|yy: int|
                    0 <= yy <= y && spec_content(pixels@, w as int, maxx as int, yy)),
                found ==> (exists|xx: int|
                    0 <= xx < w && spec_content(pixels@, w as int, xx, miny as int)),
                found ==> (exists|xx: int|
                    0 <= xx < w && spec_content(pixels@, w as int, xx, maxy as int)),
                found ==> miny <= y && maxy <= y,
                forall|xx: int, yy: int|
                    0 <= xx < w && 0 <= yy < y && spec_content(pixels@, w as int, xx, yy) ==> found
                        && minx <= xx <= maxx && miny <= yy <= maxy,
                forall|xx: int|
                    0 <= xx < x && spec_content(pixels@, w as int, xx, y as int) ==> found && minx
                        <= xx <= maxx && miny <= y <= maxy,
            decreases w - x,
        {
            proof {
                lemma_grid_index(x as int, y as int, w as int, h as int);
            }
            let p = pixels[y * w + x];
            if p.a > 0 {
                proof {
                    assert(spec_content(pixels@, w as int, x as int, y as int));
                }
                if !found {
                    found = true;
                    minx = x;
                    maxx = x;
                    miny = y;
                    maxy = y;
                } else {
                    if x < minx {
                        minx = x;
                    }
                    if x > maxx {
                        maxx = x;
                    }
                    if y > maxy {
                        maxy = y;
                    }
                }
            }
            x = x + 1;
        }
        y = y + 1;
    }
    if !found {
        let mut out: Vec<RgbaColor> = Vec::new();
        out.push(RgbaColor { r: 0, g: 0, b: 0, a: 0 });
        proof {
            assert(out@ =~= seq![(RgbaColor { r: 0, g: 0, b: 0, a: 0 })]);
            assert forall|x: int, y: int|
                0 <= x < width && 0 <= y < height implies !spec_content(
                pixels@,
                width as int,
                x,
                y,
            ) by {
                if spec_content(pixels@, width as int, x, y) {
                    assert(spec_content(pixels@, w as int, x, y));
                    assert(found);
                }
            }
        }
        return (out, 1, 1);
    }
    let ow = maxx - minx + 1;
    let oh = maxy - miny + 1;
    let mut out: Vec<RgbaColor> = Vec::new();
    let mut oy: usize = 0;
    while oy < oh
        invariant
            oy <= oh,
            pixels@.len() == w * h,
            w * h <= usize::MAX,
            minx + ow <= w,
            miny + oh <= h,
            1 <= ow,
            1 <= oh,
            out@.len() == oy * ow,
            forall|i: int|
                0 <= i < out@.len() ==> out@[i] == spec_px(
                    pixels@,
                    w as int,
                    minx + i % (ow as int),
                    miny + i / (ow as int),
                ),
        decreases oh - oy,
    {
        let mut ox: usize = 0;
        while ox < ow
            invariant
                ox <= ow,
                oy < oh,
                pixels@.len() == w * h,
                w * h <= usize::MAX,
                minx + ow <= w,
                miny + oh <= h,
                1 <= ow,
                1 <= oh,
                out@.len() == oy * ow + ox,
                forall|i: int|
                    0 <= i < out@.len() ==> out@[i] == spec_px(
                        pixels@,
                        w as int,
                        minx + i % (ow as int),
                        miny + i / (ow as int),
                    ),
            decreases ow - ox,
        {
            proof {
                lemma_grid_index((minx + ox) as int, (miny + oy) as int, w as int, h as int);
                assert(0 <= oy * ow + ox < w * h) by (nonlinear_arith)
                    requires
                        0 <= ox < ow <= w,
                        0 <= oy < oh <= h,
                ;
            }
            let src = pixels[(miny + oy) * w + (minx + ox)];
            out.push(src);
            proof {
                vstd::arithmetic::div_mod::lemma_fundamental_div_mod_converse(
                    (oy * ow + ox) as int,
                    ow as int,
                    oy as int,
                    ox as int,
                );
            }
            ox = ox + 1;
        }
        proof {
            assert((oy as int) * ow + ow == (oy as int + 1) * ow) by (nonlinear_arith);
        }
        oy = oy + 1;
    }
    proof {
        assert((oh as int) * (ow as int) == (ow as int) * (oh as int)) by (nonlinear_arith);
        let x0 = minx as int;
        let y0 = miny as int;
        assert(spec_is_bbox(pixels@, width as int, height as int, x0, y0, x0 + ow - 1, y0 + oh - 1));
        let yy = choose|yy: int| 0 <= yy < h && spec_content(pixels@, w as int, minx as int, yy);
        assert(0 <= x0 < width && 0 <= yy < height && spec_content(pixels@, width as int, x0, yy));
        assert(forall|i: int|
            0 <= i < out@.len() ==> out@[i] == spec_px(
                pixels@,
                width as int,
                x0 + i % (ow as int),
                y0 + i / (ow as int),
            ));
        assert(spec_is_crop(
            pixels@,
            width as int,
            height as int,
            x0,
            y0,
            out@,
            ow as int,
            oh as int,
        ));
    }
    (out, ow, oh)
}

} // verus!
