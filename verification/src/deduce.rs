//! Deduction of unknown foreground colors from an image's own color
//! content: candidate generation from the histogram, de-duplication,
//! farthest-point selection, and an exact fixed-point scoring of trial
//! assignments.

use vstd::prelude::*;

use crate::color::color_dist2;
use crate::color::dist2;
use crate::color::dist2_below_threshold;
use crate::color::within_threshold;
use crate::color::ForegroundColorSpec;
use crate::color::RgbColor;
use crate::hist::ColorCount;
use crate::hist::spec_histogram;
use crate::hist::spec_top_entries;
use crate::math::ints_of;
use crate::math::isqrt_u128;
use crate::math::isqrt_u64;
use crate::math::lemma_isqrt_unique;
use crate::math::lemma_sum_int_nonneg;
use crate::math::mul_i128_bounded;
use crate::math::spec_isqrt;
use crate::math::spec_round_div;
use crate::math::sum_int;
use crate::unmix::spec_unmix;
use crate::unmix::unmix_colors_internal;
use crate::unmix::wsum_b;
use crate::unmix::wsum_g;
use crate::unmix::wsum_r;
use crate::unmix::UnmixResult;

verus! {

/// The alpha fractions tried when inverting a histogram color into a
/// foreground candidate: 1/4, 1/2, 3/4, 9/10 and 1.
pub open spec fn spec_alpha_fractions() -> Seq<(int, int)> {
    seq![(1int, 4int), (1int, 2int), (3int, 4int), (9int, 10int), (1int, 1int)]
}

/// The foreground implied by observing `o` over `bg` at alpha `p/q`, when
/// every channel stays inside the color cube: solving
/// `o == (p/q)*fg + (1 - p/q)*bg` gives channels `(q*o - (q-p)*bg) / p`,
/// rounded to bytes.
pub open spec fn spec_implied_fg(o: RgbColor, bg: RgbColor, p: int, q: int) -> Option<RgbColor> {
    let nr = q * o.r - (q - p) * bg.r;
    let ng = q * o.g - (q - p) * bg.g;
    let nb = q * o.b - (q - p) * bg.b;
    if 0 <= nr <= 255 * p && 0 <= ng <= 255 * p && 0 <= nb <= 255 * p {
        Some(
            (RgbColor {
                r: spec_round_div(nr, p) as u8,
                g: spec_round_div(ng, p) as u8,
                b: spec_round_div(nb, p) as u8,
            }),
        )
    } else {
        None
    }
}

/// The candidates one histogram color contributes: a color too close to the
/// background is skipped, otherwise each alpha fraction that keeps the
/// implied foreground inside the color cube yields one.  The implied
/// foreground reconstructs the observed color exactly, so the forward
/// reconstruction check always passes and leaves no further condition.
pub open spec fn spec_entry_candidates(o: RgbColor, bg: RgbColor, i: int) -> Seq<RgbColor>
    decreases spec_alpha_fractions().len() - i,
{
    if i < 0 || i >= spec_alpha_fractions().len() {
        Seq::<RgbColor>::empty()
    } else {
        let pq = spec_alpha_fractions()[i];
        let rest = spec_entry_candidates(o, bg, i + 1);
        match spec_implied_fg(o, bg, pq.0, pq.1) {
            Some(c) => seq![c] + rest,
            None => rest,
        }
    }
}

/// Raw candidates from the most frequent histogram entries, in order.
pub open spec fn spec_raw_candidates(entries: Seq<ColorCount>, bg: RgbColor, i: int) -> Seq<
    RgbColor,
>
    decreases entries.len() - i,
{
    if i < 0 || i >= entries.len() {
        Seq::<RgbColor>::empty()
    } else {
        let here = if within_threshold(dist2(entries[i].color, bg), 10) {
            Seq::<RgbColor>::empty()
        } else {
            spec_entry_candidates(entries[i].color, bg, 0)
        };
        here + spec_raw_candidates(entries, bg, i + 1)
    }
}

/// Whether some kept candidate lies strictly within the threshold of `c`.
pub open spec fn spec_has_close(acc: Seq<RgbColor>, c: RgbColor, t: int) -> bool {
    exists|j: int| 0 <= j < acc.len() && within_threshold(dist2(#[trigger] acc[j], c), t)
}

/// De-duplicate, keeping the first of any two candidates within the
/// threshold.
pub open spec fn spec_dedup_from(cands: Seq<RgbColor>, t: int, i: int, acc: Seq<RgbColor>) -> Seq<
    RgbColor,
>
    decreases cands.len() - i,
{
    if i < 0 || i >= cands.len() {
        acc
    } else if spec_has_close(acc, cands[i], t) {
        spec_dedup_from(cands, t, i + 1, acc)
    } else {
        spec_dedup_from(cands, t, i + 1, acc.push(cands[i]))
    }
}

/// The implied foreground at one alpha fraction, executable.
fn implied_fg(o: &RgbColor, bg: &RgbColor, p: u32, q: u32) -> (r: Option<RgbColor>)
    requires
        1 <= p <= q <= 10,
    ensures
        r == spec_implied_fg(*o, *bg, p as int, q as int),
{
    let nr: i64 = crate::math::diff_mul(q as i64, o.r as i64) - crate::math::diff_mul(
        (q - p) as i64,
        bg.r as i64,
    );
    let ng: i64 = crate::math::diff_mul(q as i64, o.g as i64) - crate::math::diff_mul(
        (q - p) as i64,
        bg.g as i64,
    );
    let nb: i64 = crate::math::diff_mul(q as i64, o.b as i64) - crate::math::diff_mul(
        (q - p) as i64,
        bg.b as i64,
    );
    let cap = 255 * p as i64;
    if 0 <= nr && nr <= cap && 0 <= ng && ng <= cap && 0 <= nb && nb <= cap {
        let rr = crate::math::round_div_u128(nr as u128, p as u128) as u8;
        let rg = crate::math::round_div_u128(ng as u128, p as u128) as u8;
        let rb = crate::math::round_div_u128(nb as u128, p as u128) as u8;
        Some(RgbColor { r: rr, g: rg, b: rb })
    } else {
        None
    }
}

/// Collect and de-duplicate candidate foreground colors from the most
/// frequent image colors.
fn raw_deduped_candidates(
    entries: &Vec<ColorCount>,
    background: &RgbColor,
    threshold_milli: u32,
) -> (r: Vec<RgbColor>)
    requires
        threshold_milli <= 1000,
    ensures
        r@ == spec_dedup_from(
            spec_raw_candidates(entries@, *background, 0),
            threshold_milli as int,
            0,
            Seq::<RgbColor>::empty(),
        ),
{
    let bg = *background;
    let mut raw: Vec<RgbColor> = Vec::new();
    let mut i: usize = 0;
    proof {
        assert(raw@ =~= Seq::<RgbColor>::empty());
    }
    while i < entries.len()
        invariant
            i <= entries@.len(),
            bg == *background,
            spec_raw_candidates(entries@, bg, 0) == raw@ + spec_raw_candidates(
                entries@,
                bg,
                i as int,
            ),
        decreases entries@.len() - i,
    {
        let o = entries[i].color;
        let d2 = color_dist2(&o, background);
        let ghost before = raw@;
        if !dist2_below_threshold(d2, 10) {
            // Each feasible alpha fraction contributes one candidate.
            let fracs: [(u32, u32); 5] = [(1, 4), (1, 2), (3, 4), (9, 10), (1, 1)];
            let mut a: usize = 0;
            while a < 5
                invariant
                    a <= 5,
                    bg == *background,
                    o == entries@[i as int].color,
                    i < entries@.len(),
                    fracs@ =~= seq![(1u32, 4u32), (1u32, 2u32), (3u32, 4u32), (9u32, 10u32), (
                        1u32,
                        1u32,
                    )],
                    before + spec_entry_candidates(o, bg, 0) == raw@ + spec_entry_candidates(
                        o,
                        bg,
                        a as int,
                    ),
                decreases 5 - a,
            {
                let pq = fracs[a];
                proof {
                    assert(spec_alpha_fractions()[a as int] == (pq.0 as int, pq.1 as int));
                }
                match implied_fg(&o, background, pq.0, pq.1) {
                    Some(c) => {
                        raw.push(c);
                        proof {
                            assert(raw@.drop_last() + (seq![c] + spec_entry_candidates(
                                o,
                                bg,
                                a as int + 1,
                            )) =~= raw@ + spec_entry_candidates(o, bg, a as int + 1));
                        }
                    },
                    None => {},
                }
                a = a + 1;
            }
            proof {
                assert(spec_entry_candidates(o, bg, 5) =~= Seq::<RgbColor>::empty());
                assert(raw@ + Seq::<RgbColor>::empty() =~= raw@);
            }
        } else {
            proof {
                assert(before + Seq::<RgbColor>::empty() =~= before);
            }
        }
        proof {
            assert(raw@ + spec_raw_candidates(entries@, bg, i as int + 1) =~= before
                + spec_raw_candidates(entries@, bg, i as int));
        }
        i = i + 1;
    }
    proof {
        assert(spec_raw_candidates(entries@, bg, entries@.len() as int) =~= Seq::<
            RgbColor,
        >::empty());
        assert(raw@ + Seq::<RgbColor>::empty() =~= raw@);
    }
    // De-duplicate, keeping the first of any close pair.
    let mut out: Vec<RgbColor> = Vec::new();
    let mut j: usize = 0;
    proof {
        assert(out@ =~= Seq::<RgbColor>::empty());
    }
    while j < raw.len()
        invariant
            j <= raw@.len(),
            threshold_milli <= 1000,
            spec_dedup_from(raw@, threshold_milli as int, j as int, out@) == spec_dedup_from(
                raw@,
                threshold_milli as int,
                0,
                Seq::<RgbColor>::empty(),
            ),
        decreases raw@.len() - j,
    {
        let c = raw[j];
        let mut close = false;
        let mut k: usize = 0;
        while k < out.len()
            invariant
                k <= out@.len(),
                threshold_milli <= 1000,
                c == raw@[j as int],
                j < raw@.len(),
                close == exists|t: int|
                    0 <= t < k && within_threshold(dist2(#[trigger] out@[t], c), threshold_milli as int),
            decreases out@.len() - k,
        {
            if !close {
                let d2 = color_dist2(&out[k], &c);
                if dist2_below_threshold(d2, threshold_milli) {
                    close = true;
                }
            }
            k = k + 1;
        }
        proof {
            assert(close == spec_has_close(out@, c, threshold_milli as int));
        }
        if !close {
            out.push(c);
        }
        j = j + 1;
    }
    out
}

/// The saturation spread of a color: largest minus smallest channel.
pub open spec fn spec_spread(c: RgbColor) -> int {
    let mx = if c.r >= c.g && c.r >= c.b {
        c.r as int
    } else if c.g >= c.b {
        c.g as int
    } else {
        c.b as int
    };
    let mn = if c.r <= c.g && c.r <= c.b {
        c.r as int
    } else if c.g <= c.b {
        c.g as int
    } else {
        c.b as int
    };
    mx - mn
}

/// The quantized color distance the farthest-point selection ranks by:
/// `floor(1000 * sqrt(dist2) / 255)`, which is thousandths of a normalized
/// unit.
pub open spec fn spec_qdist(a: RgbColor, b: RgbColor) -> int {
    spec_isqrt(1000000 * dist2(a, b)) / 255
}

/// The smallest quantized distance from `c` to any selected color.
pub open spec fn spec_min_qdist_from(sel: Seq<RgbColor>, c: RgbColor, i: int, cur: int) -> int
    decreases sel.len() - i,
{
    if i < 0 || i >= sel.len() {
        cur
    } else {
        let d = spec_qdist(sel[i], c);
        spec_min_qdist_from(sel, c, i + 1, if d < cur { d } else { cur })
    }
}

/// The ranking key of the farthest-point selection: saturation spread for
/// the first pick, then the distance to the nearest already-selected color.
pub open spec fn spec_select_key(sel: Seq<RgbColor>, c: RgbColor) -> int {
    if sel.len() == 0 {
        spec_spread(c)
    } else {
        spec_min_qdist_from(sel, c, 0, 2147483647)
    }
}

pub open spec fn spec_contains_color(sel: Seq<RgbColor>, c: RgbColor) -> bool {
    exists|j: int| 0 <= j < sel.len() && sel[j] == c
}

/// The first-seen index with the largest key among colors not yet selected,
/// or -1 when every color is selected.
pub open spec fn spec_pick_from(colors: Seq<RgbColor>, sel: Seq<RgbColor>, i: int, best: int) -> int
    decreases colors.len() - i,
{
    if i < 0 || i >= colors.len() {
        best
    } else if spec_contains_color(sel, colors[i]) {
        spec_pick_from(colors, sel, i + 1, best)
    } else if best < 0 || !(0 <= best < colors.len()) || spec_select_key(sel, colors[i])
        > spec_select_key(sel, colors[best]) {
        spec_pick_from(colors, sel, i + 1, i)
    } else {
        spec_pick_from(colors, sel, i + 1, best)
    }
}

/// Greedy farthest-point selection of `n` colors.
pub open spec fn spec_select_more(colors: Seq<RgbColor>, sel: Seq<RgbColor>, n: int) -> Seq<
    RgbColor,
>
    decreases n - sel.len(),
{
    if sel.len() >= n {
        sel
    } else {
        let i = spec_pick_from(colors, sel, 0, -1);
        if 0 <= i < colors.len() {
            spec_select_more(colors, sel.push(colors[i]), n)
        } else {
            sel
        }
    }
}

/// What [`select_most_different_colors`] returns: the input when it already
/// fits, else the greedy farthest-point selection.
pub open spec fn spec_select_most_different(colors: Seq<RgbColor>, n: int) -> Seq<RgbColor> {
    if colors.len() <= n {
        colors
    } else {
        spec_select_more(colors, Seq::<RgbColor>::empty(), n)
    }
}

/// The quantized distance, executable.
fn qdist(a: &RgbColor, b: &RgbColor) -> (r: u64)
    ensures
        r == spec_qdist(*a, *b),
        r <= 1732,
{
    let d2 = color_dist2(a, b);
    let s = isqrt_u64(1000000 * d2 as u64);
    proof {
        lemma_isqrt_unique(1000000 * dist2(*a, *b), s as int);
        assert(s <= 441673) by (nonlinear_arith)
            requires
                0 <= s,
                (s as int) * (s as int) <= 195075000000,
        ;
    }
    s / 255
}

/// The ranking key, executable.
fn select_key(sel: &Vec<RgbColor>, c: &RgbColor) -> (r: i64)
    ensures
        r == spec_select_key(sel@, *c),
{
    if sel.len() == 0 {
        let mut mx = c.r;
        if c.g > mx {
            mx = c.g;
        }
        if c.b > mx {
            mx = c.b;
        }
        let mut mn = c.r;
        if c.g < mn {
            mn = c.g;
        }
        if c.b < mn {
            mn = c.b;
        }
        proof {
            assert(mx as int - mn as int == spec_spread(*c));
        }
        mx as i64 - mn as i64
    } else {
        let mut cur: i64 = 2147483647;
        let mut i: usize = 0;
        while i < sel.len()
            invariant
                i <= sel@.len(),
                spec_min_qdist_from(sel@, *c, i as int, cur as int) == spec_min_qdist_from(
                    sel@,
                    *c,
                    0,
                    2147483647,
                ),
                0 <= cur <= 2147483647,
            decreases sel@.len() - i,
        {
            let d = qdist(&sel[i], c) as i64;
            if d < cur {
                cur = d;
            }
            i = i + 1;
        }
        cur
    }
}

/// Whether `sel` already holds exactly this color.
fn contains_color(sel: &Vec<RgbColor>, c: &RgbColor) -> (r: bool)
    ensures
        r == spec_contains_color(sel@, *c),
{
    let mut i: usize = 0;
    while i < sel.len()
        invariant
            i <= sel@.len(),
            forall|j: int| 0 <= j < i ==> sel@[j] != *c,
        decreases sel@.len() - i,
    {
        if sel[i].r == c.r && sel[i].g == c.g && sel[i].b == c.b {
            proof {
                assert(sel@[i as int] == *c);
            }
            return true;
        }
        i = i + 1;
    }
    false
}

/// Pick the `n` most mutually different colors: first the most saturated,
/// then repeatedly the color farthest from everything already selected
/// (first seen wins every tie).
pub fn select_most_different_colors(colors: &Vec<RgbColor>, n: usize) -> (r: Vec<RgbColor>)
    ensures
        r@ == spec_select_most_different(colors@, n as int),
{
    if colors.len() <= n {
        let mut out: Vec<RgbColor> = Vec::new();
        let mut i: usize = 0;
        proof {
            assert(colors@.take(0) =~= Seq::<RgbColor>::empty());
        }
        while i < colors.len()
            invariant
                i <= colors@.len(),
                out@ == colors@.take(i as int),
            decreases colors@.len() - i,
        {
            out.push(colors[i]);
            proof {
                assert(colors@.take(i + 1) =~= colors@.take(i as int).push(colors@[i as int]));
            }
            i = i + 1;
        }
        proof {
            assert(colors@.take(colors@.len() as int) =~= colors@);
        }
        return out;
    }
    let mut sel: Vec<RgbColor> = Vec::new();
    proof {
        assert(sel@ =~= Seq::<RgbColor>::empty());
    }
    while sel.len() < n
        invariant
            sel@.len() <= n,
            n < colors@.len(),
            spec_select_more(colors@, sel@, n as int) == spec_select_more(
                colors@,
                Seq::<RgbColor>::empty(),
                n as int,
            ),
        decreases n - sel@.len(),
    {
        let ghost sel0 = sel@;
        let mut has_best = false;
        let mut bi: usize = 0;
        let mut i: usize = 0;
        while i < colors.len()
            invariant
                i <= colors@.len(),
                sel@ == sel0,
                has_best ==> bi < colors@.len() && bi < i,
                spec_pick_from(
                    colors@,
                    sel@,
                    i as int,
                    if has_best {
                        bi as int
                    } else {
                        -1
                    },
                ) == spec_pick_from(colors@, sel@, 0, -1),
            decreases colors@.len() - i,
        {
            let c = colors[i];
            if !contains_color(&sel, &c) {
                if !has_best {
                    has_best = true;
                    bi = i;
                } else {
                    let ki = select_key(&sel, &c);
                    let kb = select_key(&sel, &colors[bi]);
                    if ki > kb {
                        bi = i;
                    }
                }
            }
            i = i + 1;
        }
        if !has_best {
            proof {
                assert(spec_pick_from(colors@, sel@, colors@.len() as int, -1int) == -1);
                assert(spec_pick_from(colors@, sel@, 0, -1) == -1);
                assert(spec_select_more(colors@, sel@, n as int) == sel@);
            }
            return sel;
        }
        sel.push(colors[bi]);
        proof {
            assert(spec_select_more(colors@, sel0, n as int) == spec_select_more(
                colors@,
                sel0.push(colors@[bi as int]),
                n as int,
            ));
            assert(sel@ =~= sel0.push(colors@[bi as int]));
        }
    }
    sel
}

pub open spec fn abs1(x: int) -> int {
    if x < 0 {
        -x
    } else {
        x
    }
}

/// The fixed-point reconstruction error of one histogram color against a
/// trial foreground set, in hundred-thousandths of a byte: the simple-mode
/// unmix is reconstructed over the background and compared to the observed
/// color.
pub open spec fn spec_entry_err(o: RgbColor, fgs: Seq<RgbColor>, bg: RgbColor) -> int {
    let nd = spec_unmix(o, fgs, bg, false);
    let nums = nd.0;
    let den = nd.1;
    let nsum = sum_int(nums);
    let ur = wsum_r(nums, fgs) + (den - nsum) * bg.r - o.r * den;
    let ug = wsum_g(nums, fgs) + (den - nsum) * bg.g - o.g * den;
    let ub = wsum_b(nums, fgs) + (den - nsum) * bg.b - o.b * den;
    let rr = abs1(ur) * 100000 / den;
    let rg = abs1(ug) * 100000 / den;
    let rb = abs1(ub) * 100000 / den;
    spec_isqrt(rr * rr + rg * rg + rb * rb)
}

/// The weight of a histogram entry: `floor(1000 * sqrt(count))`.
pub open spec fn spec_weight_fp(count: int) -> int {
    spec_isqrt(count * 1000000)
}

/// Accumulated weighted error and total weight over the histogram.
pub open spec fn spec_eval_fold(
    fgs: Seq<RgbColor>,
    entries: Seq<ColorCount>,
    bg: RgbColor,
    i: int,
    te: int,
    tw: int,
) -> (int, int)
    decreases entries.len() - i,
{
    if i < 0 || i >= entries.len() {
        (te, tw)
    } else {
        let w = spec_weight_fp(entries[i].count as int);
        let e = spec_entry_err(entries[i].color, fgs, bg);
        spec_eval_fold(fgs, entries, bg, i + 1, te + w * e, tw + w)
    }
}

/// The summed quality penalty: each foreground color close to the
/// background costs up to 255 units (one hundred-thousandth of a byte per
/// unit), scaled by how close it sits.
pub open spec fn spec_penalty_sum(fgs: Seq<RgbColor>, bg: RgbColor, i: int) -> int
    decreases fgs.len() - i,
{
    if i < 0 || i >= fgs.len() {
        0
    } else {
        (255 - spec_isqrt(1000000 * dist2(fgs[i], bg)) / 1732) + spec_penalty_sum(fgs, bg, i + 1)
    }
}

/// The score of a trial foreground set: mean weighted reconstruction error
/// plus the mean background-closeness penalty; none when the histogram
/// carries no weight at all.
pub open spec fn spec_eval(fgs: Seq<RgbColor>, entries: Seq<ColorCount>, bg: RgbColor) -> Option<
    int,
> {
    let tetw = spec_eval_fold(fgs, entries, bg, 0, 0, 0);
    if tetw.1 <= 0 {
        None
    } else {
        Some(tetw.0 / tetw.1 + spec_penalty_sum(fgs, bg, 0) / (fgs.len() as int))
    }
}

/// The weighted channel sums of an unmix result.
fn weighted_sums(u: &UnmixResult, fgs: &Vec<RgbColor>) -> (t: (i128, i128, i128))
    requires
        u.wf(),
        u.weight_nums@.len() == fgs@.len(),
    ensures
        t.0 == wsum_r(ints_of(u.weight_nums@), fgs@),
        t.1 == wsum_g(ints_of(u.weight_nums@), fgs@),
        t.2 == wsum_b(ints_of(u.weight_nums@), fgs@),
        0 <= t.0 <= 255 * u.alpha_num(),
        0 <= t.1 <= 255 * u.alpha_num(),
        0 <= t.2 <= 255 * u.alpha_num(),
{
    let ghost nums = ints_of(u.weight_nums@);
    let ghost fseq = fgs@;
    let mut wr: i128 = 0;
    let mut wg: i128 = 0;
    let mut wb: i128 = 0;
    let mut j: usize = 0;
    proof {
        assert(nums.take(0) =~= Seq::<int>::empty());
        assert(fseq.take(0) =~= Seq::<RgbColor>::empty());
        crate::unmix::lemma_wsum_bounds(nums, fseq);
        crate::math::lemma_sum_int_nonneg(nums);
    }
    while j < fgs.len()
        invariant
            j <= fseq.len(),
            nums == ints_of(u.weight_nums@),
            nums.len() == fseq.len(),
            fseq == fgs@,
            u.wf(),
            forall|k: int| 0 <= k < nums.len() ==> #[trigger] nums[k] >= 0 && nums[k]
                == u.weight_nums@[k],
            sum_int(nums) <= u.weight_den <= crate::unmix::DEN_BOUND,
            wr == wsum_r(nums.take(j as int), fseq.take(j as int)),
            wg == wsum_g(nums.take(j as int), fseq.take(j as int)),
            wb == wsum_b(nums.take(j as int), fseq.take(j as int)),
            0 <= wr <= 255 * sum_int(nums.take(j as int)),
            0 <= wg <= 255 * sum_int(nums.take(j as int)),
            0 <= wb <= 255 * sum_int(nums.take(j as int)),
            sum_int(nums.take(j as int)) <= sum_int(nums),
        decreases fseq.len() - j,
    {
        let ghost jj = j as int;
        proof {
            crate::math::lemma_sum_int_take_le(nums, jj);
            crate::math::lemma_sum_int_take_le(nums, jj + 1);
            crate::math::lemma_sum_int_take_step(nums, jj);
            crate::unmix::lemma_wsum_take_step(nums, fseq, jj);
            crate::unmix::lemma_wsum_bounds(nums.take(jj), fseq.take(jj));
            crate::unmix::lemma_wsum_bounds(nums.take(jj + 1), fseq.take(jj + 1));
        }
        let num_j = u.weight_nums[j];
        let f = fgs[j];
        wr = wr + mul_i128_bounded(
            num_j,
            f.r as i128,
            Ghost(crate::unmix::DEN_BOUND as int),
            Ghost(255),
        );
        wg = wg + mul_i128_bounded(
            num_j,
            f.g as i128,
            Ghost(crate::unmix::DEN_BOUND as int),
            Ghost(255),
        );
        wb = wb + mul_i128_bounded(
            num_j,
            f.b as i128,
            Ghost(crate::unmix::DEN_BOUND as int),
            Ghost(255),
        );
        j = j + 1;
    }
    proof {
        assert(nums.take(nums.len() as int) =~= nums);
        assert(fseq.take(fseq.len() as int) =~= fseq);
    }
    (wr, wg, wb)
}

/// The fixed-point error of one histogram color, executable.
fn entry_err(o: &RgbColor, fgs: &Vec<RgbColor>, bg: &RgbColor) -> (e: u64)
    ensures
        e == spec_entry_err(*o, fgs@, *bg),
        e <= 44200000,
{
    let u = unmix_colors_internal(o, fgs, bg, false);
    let den = u.weight_den;
    let s = crate::unmix::sum_weight_nums(&u.weight_nums, Ghost(den as int));
    let (wr, wg, wb) = weighted_sums(&u, fgs);
    let ghost dbn: int = crate::unmix::DEN_BOUND as int;
    proof {
        assert(0 <= (den - s) * (bg.r as int) <= (den - s) * 255 && 0 <= (den - s) * (
        bg.g as int) <= (den - s) * 255 && 0 <= (den - s) * (bg.b as int) <= (den - s) * 255
            && 0 <= (o.r as int) * den <= 255 * den && 0 <= (o.g as int) * den <= 255 * den && 0
            <= (o.b as int) * den <= 255 * den && (den - s) * 255 + 255 * (s as int) == 255 * den)
            by (nonlinear_arith)
            requires
                0 <= s <= den,
                0 <= o.r <= 255 && 0 <= o.g <= 255 && 0 <= o.b <= 255,
                0 <= bg.r <= 255 && 0 <= bg.g <= 255 && 0 <= bg.b <= 255,
        ;
    }
    let ur = wr + mul_i128_bounded(den - s, bg.r as i128, Ghost(dbn), Ghost(255))
        - mul_i128_bounded(o.r as i128, den, Ghost(255), Ghost(dbn));
    let ug = wg + mul_i128_bounded(den - s, bg.g as i128, Ghost(dbn), Ghost(255))
        - mul_i128_bounded(o.g as i128, den, Ghost(255), Ghost(dbn));
    let ub = wb + mul_i128_bounded(den - s, bg.b as i128, Ghost(dbn), Ghost(255))
        - mul_i128_bounded(o.b as i128, den, Ghost(255), Ghost(dbn));
    let ar: i128 = if ur < 0 { -ur } else { ur };
    let ag: i128 = if ug < 0 { -ug } else { ug };
    let ab: i128 = if ub < 0 { -ub } else { ub };
    proof {
        assert(((ar as int) * 100000) / (den as int) <= 25500000 && ((ag as int) * 100000) / (
        den as int) <= 25500000 && ((ab as int) * 100000) / (den as int) <= 25500000 && 0 <= ((
        ar as int) * 100000) / (den as int) && 0 <= ((ag as int) * 100000) / (den as int) && 0 <= ((
        ab as int) * 100000) / (den as int)) by (nonlinear_arith)
            requires
                1 <= den,
                0 <= (ar as int) <= 255 * (den as int),
                0 <= (ag as int) <= 255 * (den as int),
                0 <= (ab as int) <= 255 * (den as int),
        ;
    }
    let rr = crate::math::floor_div_u128((ar as u128) * 100000, den as u128) as u64;
    let rg = crate::math::floor_div_u128((ag as u128) * 100000, den as u128) as u64;
    let rb = crate::math::floor_div_u128((ab as u128) * 100000, den as u128) as u64;
    proof {
        assert((rr as int) * (rr as int) <= 650250000000000 && (rg as int) * (rg as int)
            <= 650250000000000 && (rb as int) * (rb as int) <= 650250000000000 && 0 <= (rr as int)
            * (rr as int) && 0 <= (rg as int) * (rg as int) && 0 <= (rb as int) * (rb as int))
            by (nonlinear_arith)
            requires
                0 <= rr <= 25500000,
                0 <= rg <= 25500000,
                0 <= rb <= 25500000,
        ;
    }
    let e = isqrt_u64(rr * rr + rg * rg + rb * rb);
    proof {
        lemma_isqrt_unique(
            (rr as int) * (rr as int) + (rg as int) * (rg as int) + (rb as int) * (rb as int),
            e as int,
        );
        assert(e <= 44200000) by (nonlinear_arith)
            requires
                0 <= e,
                (e as int) * (e as int) <= 1950750000000000,
        ;
    }
    e
}

/// Score a trial foreground set against the whole histogram: the weighted
/// mean reconstruction error plus a small penalty for foreground colors
/// close to the background.  No score is produced when the histogram is
/// weightless, and such a trial never wins.
pub fn evaluate_color_set(
    foreground_colors: &Vec<RgbColor>,
    entries: &Vec<ColorCount>,
    background: &RgbColor,
) -> (r: Option<u128>)
    requires
        1 <= foreground_colors@.len(),
        entries@.len() <= 0x100000000,
    ensures
        (r is Some <==> spec_eval(foreground_colors@, entries@, *background) is Some),
        r is Some ==> Some(r->0 as int) == spec_eval(foreground_colors@, entries@, *background),
{
    let bg = *background;
    let mut te: u128 = 0;
    let mut tw: u128 = 0;
    let mut i: usize = 0;
    while i < entries.len()
        invariant
            i <= entries@.len(),
            entries@.len() <= 0x100000000,
            bg == *background,
            1 <= foreground_colors@.len(),
            te <= i * 191000000000000000000,
            tw <= i * 4300000000000,
            spec_eval_fold(foreground_colors@, entries@, bg, 0, 0, 0) == spec_eval_fold(
                foreground_colors@,
                entries@,
                bg,
                i as int,
                te as int,
                tw as int,
            ),
        decreases entries@.len() - i,
    {
        let count = entries[i].count;
        let w = isqrt_u128((count as u128) * 1000000);
        proof {
            assert(w <= 4300000000000) by (nonlinear_arith)
                requires
                    0 <= w,
                    (w as int) * (w as int) <= (usize::MAX as int) * 1000000,
            ;
        }
        let e = entry_err(&entries[i].color, foreground_colors, &bg);
        proof {
            assert((w as int) * (e as int) <= 191000000000000000000int && 0 <= (w as int) * (
            e as int)) by (nonlinear_arith)
                requires
                    0 <= w <= 4300000000000,
                    0 <= e <= 44200000,
            ;
        }
        te = te + w * (e as u128);
        tw = tw + w;
        i = i + 1;
    }
    if tw == 0 {
        return None;
    }
    // Mean background-closeness penalty over the foreground colors.
    let mut pen: u128 = 0;
    let mut j: usize = 0;
    while j < foreground_colors.len()
        invariant
            j <= foreground_colors@.len(),
            bg == *background,
            pen <= j * 255,
            pen + spec_penalty_sum(foreground_colors@, bg, j as int) == spec_penalty_sum(
                foreground_colors@,
                bg,
                0,
            ),
        decreases foreground_colors@.len() - j,
    {
        let q = isqrt_u64(1000000 * color_dist2(&foreground_colors[j], &bg) as u64);
        proof {
            lemma_isqrt_unique(1000000 * dist2(foreground_colors@[j as int], bg), q as int);
            assert(q <= 441673) by (nonlinear_arith)
                requires
                    0 <= q,
                    (q as int) * (q as int) <= 195075000000,
        ;
        }
        let pu = 255 - (q / 1732) as u128;
        pen = pen + pu;
        j = j + 1;
    }
    let avg = te / tw;
    let pavg = pen / (foreground_colors.len() as u128);
    Some(avg + pavg)
}

/// No two colors of the sequence lie strictly within the threshold of one
/// another.
pub open spec fn spec_pairwise_far(s: Seq<RgbColor>, t: int) -> bool {
    forall|i: int, j: int|
        0 <= i < j < s.len() ==> !within_threshold(dist2(#[trigger] s[i], #[trigger] s[j]), t)
}

/// Squared color distance is symmetric.
pub proof fn lemma_dist2_sym(a: RgbColor, b: RgbColor)
    ensures
        dist2(a, b) == dist2(b, a),
{
    assert((a.r - b.r) * (a.r - b.r) == (b.r - a.r) * (b.r - a.r) && (a.g - b.g) * (a.g - b.g) == (
    b.g - a.g) * (b.g - a.g) && (a.b - b.b) * (a.b - b.b) == (b.b - a.b) * (b.b - a.b))
        by (nonlinear_arith);
}

/// De-duplication keeps only colors at least the threshold apart.
proof fn lemma_dedup_far(cands: Seq<RgbColor>, t: int, i: int, acc: Seq<RgbColor>)
    requires
        spec_pairwise_far(acc, t),
    ensures
        spec_pairwise_far(spec_dedup_from(cands, t, i, acc), t),
    decreases cands.len() - i,
{
    if 0 <= i < cands.len() {
        if spec_has_close(acc, cands[i], t) {
            lemma_dedup_far(cands, t, i + 1, acc);
        } else {
            let acc2 = acc.push(cands[i]);
            assert(spec_pairwise_far(acc2, t));
            lemma_dedup_far(cands, t, i + 1, acc2);
        }
    }
}

/// The standard-color union keeps the separation.
proof fn lemma_union_far(
    cands: Seq<RgbColor>,
    knowns: Seq<RgbColor>,
    bg: RgbColor,
    t: int,
    i: int,
)
    requires
        spec_pairwise_far(cands, t),
    ensures
        spec_pairwise_far(spec_union_standard(cands, knowns, bg, t, i), t),
    decreases spec_standard_colors().len() - i,
{
    if 0 <= i < spec_standard_colors().len() {
        let c = spec_standard_colors()[i];
        let keep = !spec_contains_color(knowns, c) && c != bg && !spec_has_close(cands, c, t);
        if keep {
            let cands2 = cands.push(c);
            assert(spec_pairwise_far(cands2, t));
            lemma_union_far(cands2, knowns, bg, t, i + 1);
        } else {
            lemma_union_far(cands, knowns, bg, t, i + 1);
        }
    }
}

/// Every color the sequence holds occurs in the pool.
pub open spec fn spec_all_from(sel: Seq<RgbColor>, colors: Seq<RgbColor>) -> bool {
    forall|k: int| 0 <= k < sel.len() ==> spec_contains_color(colors, #[trigger] sel[k])
}

pub open spec fn spec_distinct(sel: Seq<RgbColor>) -> bool {
    forall|i: int, j: int| 0 <= i < j < sel.len() ==> #[trigger] sel[i] != #[trigger] sel[j]
}

/// A pick is never a color that is already selected.
proof fn lemma_pick_fresh(colors: Seq<RgbColor>, sel: Seq<RgbColor>, i: int, best: int)
    requires
        best == -1 || (0 <= best < colors.len() && !spec_contains_color(sel, colors[best])),
    ensures
        ({
            let r = spec_pick_from(colors, sel, i, best);
            r == best || (0 <= r < colors.len() && !spec_contains_color(sel, colors[r]))
        }),
    decreases colors.len() - i,
{
    if 0 <= i < colors.len() {
        if spec_contains_color(sel, colors[i]) {
            lemma_pick_fresh(colors, sel, i + 1, best);
        } else if best < 0 || !(0 <= best < colors.len()) || spec_select_key(sel, colors[i])
            > spec_select_key(sel, colors[best]) {
            lemma_pick_fresh(colors, sel, i + 1, i);
        } else {
            lemma_pick_fresh(colors, sel, i + 1, best);
        }
    }
}

/// The farthest-point selection returns distinct colors from its pool.
proof fn lemma_select_more_props(colors: Seq<RgbColor>, sel: Seq<RgbColor>, n: int)
    requires
        spec_all_from(sel, colors),
        spec_distinct(sel),
    ensures
        spec_all_from(spec_select_more(colors, sel, n), colors),
        spec_distinct(spec_select_more(colors, sel, n)),
    decreases n - sel.len(),
{
    if sel.len() < n {
        let i = spec_pick_from(colors, sel, 0, -1);
        lemma_pick_fresh(colors, sel, 0, -1);
        if 0 <= i < colors.len() {
            let sel2 = sel.push(colors[i]);
            assert(spec_all_from(sel2, colors));
            assert(spec_distinct(sel2));
            lemma_select_more_props(colors, sel2, n);
        }
    }
}

/// Distinct colors drawn from a separated pool are separated.
proof fn lemma_subset_far(sel: Seq<RgbColor>, colors: Seq<RgbColor>, t: int)
    requires
        spec_all_from(sel, colors),
        spec_distinct(sel),
        spec_pairwise_far(colors, t),
    ensures
        spec_pairwise_far(sel, t),
{
    assert forall|i: int, j: int|
        0 <= i < j < sel.len() implies !within_threshold(
        dist2(#[trigger] sel[i], #[trigger] sel[j]),
        t,
    ) by {
        let a = choose|m: int| 0 <= m < colors.len() && colors[m] == sel[i];
        let b = choose|m: int| 0 <= m < colors.len() && colors[m] == sel[j];
        assert(colors[a] == sel[i] && colors[b] == sel[j]);
        if a < b {
            assert(!within_threshold(dist2(colors[a], colors[b]), t));
        } else {
            assert(a != b);
            assert(!within_threshold(dist2(colors[b], colors[a]), t));
            lemma_dist2_sym(sel[i], sel[j]);
        }
    }
}

/// The farthest-point selection keeps the separation.
pub proof fn lemma_select_far(colors: Seq<RgbColor>, n: int, t: int)
    requires
        spec_pairwise_far(colors, t),
    ensures
        spec_pairwise_far(spec_select_most_different(colors, n), t),
{
    if colors.len() <= n {
    } else {
        let e = Seq::<RgbColor>::empty();
        assert(spec_all_from(e, colors));
        assert(spec_distinct(e));
        lemma_select_more_props(colors, e, n);
        lemma_subset_far(spec_select_more(colors, e, n), colors, t);
    }
}

/// No two retained deduction candidates lie within the closeness threshold
/// of one another: de-duplication enforces it, and both the farthest-point
/// reduction and the standard-color union preserve it.  The pool this
/// speaks of, [`spec_candidate_pool`], is exactly the candidate set that
/// [`spec_deduce`] searches.
pub proof fn lemma_candidate_pool_separated(
    top: Seq<ColorCount>,
    knowns: Seq<RgbColor>,
    bg: RgbColor,
    t: int,
    cap: int,
)
    ensures
        spec_pairwise_far(spec_candidate_pool(top, knowns, bg, t, cap), t),
{
    let raw = spec_raw_candidates(top, bg, 0);
    let e = Seq::<RgbColor>::empty();
    assert(spec_pairwise_far(e, t));
    lemma_dedup_far(raw, t, 0, e);
    let deduped = spec_dedup_from(raw, t, 0, e);
    if deduped.len() > cap {
        lemma_select_far(deduped, cap, t);
        lemma_union_far(spec_select_most_different(deduped, cap), knowns, bg, t, 0);
    } else {
        lemma_union_far(deduped, knowns, bg, t, 0);
    }
}

/// The retained candidate pool of a deduction run: raw candidates from the
/// most frequent colors, de-duplicated, reduced when oversized, and joined
/// by the standard reference colors.
pub open spec fn spec_candidate_pool(
    top: Seq<ColorCount>,
    knowns: Seq<RgbColor>,
    bg: RgbColor,
    t: int,
    cap: int,
) -> Seq<RgbColor> {
    let deduped = spec_dedup_from(spec_raw_candidates(top, bg, 0), t, 0, Seq::<RgbColor>::empty());
    let reduced = if deduped.len() > cap {
        spec_select_most_different(deduped, cap)
    } else {
        deduped
    };
    spec_union_standard(reduced, knowns, bg, t, 0)
}

/// The neutral gray that fills unknown slots no candidate was found for.
pub open spec fn spec_gray() -> RgbColor {
    (RgbColor { r: 128, g: 128, b: 128 })
}

/// The working foreground list: known colors verbatim, unknown slots
/// prefilled with neutral gray.
pub open spec fn spec_template(specs: Seq<ForegroundColorSpec>) -> Seq<RgbColor>
    decreases specs.len(),
{
    if specs.len() == 0 {
        Seq::<RgbColor>::empty()
    } else {
        spec_template(specs.drop_last()).push(
            match specs.last() {
                ForegroundColorSpec::Known(c) => c,
                ForegroundColorSpec::Unknown => spec_gray(),
            },
        )
    }
}

/// The positions of the unknown slots, in order.
pub open spec fn spec_upos(specs: Seq<ForegroundColorSpec>) -> Seq<int>
    decreases specs.len(),
{
    if specs.len() == 0 {
        Seq::<int>::empty()
    } else {
        spec_upos(specs.drop_last()) + (match specs.last() {
            ForegroundColorSpec::Known(_) => Seq::<int>::empty(),
            ForegroundColorSpec::Unknown => seq![specs.len() - 1],
        })
    }
}

/// The known colors, in order.
pub open spec fn spec_knowns(specs: Seq<ForegroundColorSpec>) -> Seq<RgbColor>
    decreases specs.len(),
{
    if specs.len() == 0 {
        Seq::<RgbColor>::empty()
    } else {
        spec_knowns(specs.drop_last()) + (match specs.last() {
            ForegroundColorSpec::Known(c) => seq![c],
            ForegroundColorSpec::Unknown => Seq::<RgbColor>::empty(),
        })
    }
}

/// The saturated reference colors offered as extra candidates.
pub open spec fn spec_standard_colors() -> Seq<RgbColor> {
    seq![
        (RgbColor { r: 255, g: 0, b: 0 }),
        (RgbColor { r: 0, g: 255, b: 0 }),
        (RgbColor { r: 0, g: 0, b: 255 }),
        (RgbColor { r: 255, g: 255, b: 0 }),
        (RgbColor { r: 255, g: 0, b: 255 }),
        (RgbColor { r: 0, g: 255, b: 255 }),
        (RgbColor { r: 255, g: 128, b: 0 }),
        (RgbColor { r: 128, g: 0, b: 255 }),
    ]
}

/// Union the standard reference colors into the candidate list, skipping
/// any that is already known, equal to the background, or within the
/// closeness threshold of an existing candidate.
pub open spec fn spec_union_standard(
    cands: Seq<RgbColor>,
    knowns: Seq<RgbColor>,
    bg: RgbColor,
    t: int,
    i: int,
) -> Seq<RgbColor>
    decreases spec_standard_colors().len() - i,
{
    if i < 0 || i >= spec_standard_colors().len() {
        cands
    } else {
        let c = spec_standard_colors()[i];
        let keep = !spec_contains_color(knowns, c) && c != bg && !spec_has_close(cands, c, t);
        spec_union_standard(
            if keep {
                cands.push(c)
            } else {
                cands
            },
            knowns,
            bg,
            t,
            i + 1,
        )
    }
}

/// A best-so-far trial: its score (when one was produced) and the assigned
/// foreground list.
pub open spec fn opt_score(o: Option<u128>) -> Option<int> {
    match o {
        Some(s) => Some(s as int),
        None => None,
    }
}

/// Whether a fresh score beats the best one seen so far.
pub open spec fn spec_score_beats(sc: Option<int>, best: Option<int>) -> bool {
    match sc {
        Some(s) => match best {
            Some(b) => s < b,
            None => true,
        },
        None => false,
    }
}

/// Search every single candidate for the one unknown slot.
pub open spec fn spec_search1(
    cands: Seq<RgbColor>,
    i: int,
    best: (Option<int>, Seq<RgbColor>),
    template: Seq<RgbColor>,
    p0: int,
    entries: Seq<ColorCount>,
    bg: RgbColor,
) -> (Option<int>, Seq<RgbColor>)
    decreases cands.len() - i,
{
    if i < 0 || i >= cands.len() {
        best
    } else {
        let t = template.update(p0, cands[i]);
        let sc = spec_eval(t, entries, bg);
        let next = if spec_score_beats(sc, best.0) {
            (sc, t)
        } else {
            best
        };
        spec_search1(cands, i + 1, next, template, p0, entries, bg)
    }
}

/// Search every unordered pair of candidates for two unknown slots.
pub open spec fn spec_search2(
    cands: Seq<RgbColor>,
    i: int,
    j: int,
    best: (Option<int>, Seq<RgbColor>),
    template: Seq<RgbColor>,
    p0: int,
    p1: int,
    entries: Seq<ColorCount>,
    bg: RgbColor,
) -> (Option<int>, Seq<RgbColor>)
    decreases cands.len() - i, cands.len() + 2 - j,
{
    if i < 0 || i >= cands.len() || j < i {
        best
    } else if j >= cands.len() {
        spec_search2(cands, i + 1, i + 2, best, template, p0, p1, entries, bg)
    } else {
        let t = template.update(p0, cands[i]).update(p1, cands[j]);
        let sc = spec_eval(t, entries, bg);
        let next = if spec_score_beats(sc, best.0) {
            (sc, t)
        } else {
            best
        };
        spec_search2(cands, i, j + 1, next, template, p0, p1, entries, bg)
    }
}

/// Search every unordered triple of candidates for three unknown slots.
pub open spec fn spec_search3(
    cands: Seq<RgbColor>,
    i: int,
    j: int,
    k: int,
    best: (Option<int>, Seq<RgbColor>),
    template: Seq<RgbColor>,
    p0: int,
    p1: int,
    p2: int,
    entries: Seq<ColorCount>,
    bg: RgbColor,
) -> (Option<int>, Seq<RgbColor>)
    decreases cands.len() - i, cands.len() + 3 - j, cands.len() + 3 - k,
{
    if i < 0 || i >= cands.len() || j < i || k < j {
        best
    } else if j >= cands.len() {
        spec_search3(cands, i + 1, i + 2, i + 3, best, template, p0, p1, p2, entries, bg)
    } else if k >= cands.len() {
        spec_search3(cands, i, j + 1, j + 2, best, template, p0, p1, p2, entries, bg)
    } else {
        let t = template.update(p0, cands[i]).update(p1, cands[j]).update(p2, cands[k]);
        let sc = spec_eval(t, entries, bg);
        let next = if spec_score_beats(sc, best.0) {
            (sc, t)
        } else {
            best
        };
        spec_search3(cands, i, j, k + 1, next, template, p0, p1, p2, entries, bg)
    }
}

/// Fill the unknown slots from a selected list, one each, leaving gray
/// where the list runs out.
pub open spec fn spec_apply_list(
    template: Seq<RgbColor>,
    upos: Seq<int>,
    sel: Seq<RgbColor>,
    j: int,
) -> Seq<RgbColor>
    decreases upos.len() - j,
{
    if j < 0 || j >= upos.len() || j >= sel.len() {
        template
    } else {
        spec_apply_list(template.update(upos[j], sel[j]), upos, sel, j + 1)
    }
}

/// The deduced foreground list: known colors verbatim, unknown slots
/// resolved by the bounded combinatorial search over the candidate set.
pub open spec fn spec_deduce(
    pixels: Seq<RgbColor>,
    specs: Seq<ForegroundColorSpec>,
    bg: RgbColor,
    t: int,
) -> Seq<RgbColor> {
    let template = spec_template(specs);
    let upos = spec_upos(specs);
    if upos.len() == 0 {
        template
    } else {
        let hist = spec_histogram(pixels);
        let top = spec_top_entries(hist, 100);
        let all = spec_candidate_pool(top, spec_knowns(specs), bg, t, 10 * upos.len() as int);
        if upos.len() == 1 {
            spec_search1(all, 0, (None, template), template, upos[0], hist, bg).1
        } else if upos.len() == 2 && all.len() <= 30 {
            spec_search2(all, 0, 1, (None, template), template, upos[0], upos[1], hist, bg).1
        } else if upos.len() == 3 {
            let cs = if all.len() <= 25 {
                all
            } else {
                spec_select_most_different(all, 20)
            };
            spec_search3(
                cs,
                0,
                1,
                2,
                (None, template),
                template,
                upos[0],
                upos[1],
                upos[2],
                hist,
                bg,
            ).1
        } else {
            spec_apply_list(template, upos, spec_select_most_different(all, upos.len() as int), 0)
        }
    }
}

/// An exact copy of a color list.
fn copy_colors(v: &Vec<RgbColor>) -> (r: Vec<RgbColor>)
    ensures
        r@ == v@,
{
    let mut out: Vec<RgbColor> = Vec::new();
    let mut i: usize = 0;
    proof {
        assert(v@.take(0) =~= Seq::<RgbColor>::empty());
    }
    while i < v.len()
        invariant
            i <= v@.len(),
            out@ == v@.take(i as int),
        decreases v@.len() - i,
    {
        out.push(v[i]);
        proof {
            assert(v@.take(i + 1) =~= v@.take(i as int).push(v@[i as int]));
        }
        i = i + 1;
    }
    proof {
        assert(v@.take(v@.len() as int) =~= v@);
    }
    out
}

/// The template with one slot reassigned.
fn assign1(template: &Vec<RgbColor>, p: usize, c: RgbColor) -> (r: Vec<RgbColor>)
    requires
        p < template@.len(),
    ensures
        r@ == template@.update(p as int, c),
{
    let mut t = copy_colors(template);
    t[p] = c;
    t
}

/// The integers a sequence of indices stands for.
pub open spec fn uints(s: Seq<usize>) -> Seq<int> {
    s.map_values(|x: usize| x as int)
}

/// Build the working template, the unknown positions, and the known colors.
fn split_specs(specs: &Vec<ForegroundColorSpec>) -> (r: (Vec<RgbColor>, Vec<usize>, Vec<RgbColor>))
    ensures
        r.0@ == spec_template(specs@),
        uints(r.1@) == spec_upos(specs@),
        r.2@ == spec_knowns(specs@),
        forall|k: int| 0 <= k < r.1@.len() ==> #[trigger] r.1@[k] < specs@.len(),
{
    let mut template: Vec<RgbColor> = Vec::new();
    let mut upos: Vec<usize> = Vec::new();
    let mut knowns: Vec<RgbColor> = Vec::new();
    let mut i: usize = 0;
    proof {
        assert(specs@.take(0) =~= Seq::<ForegroundColorSpec>::empty());
        assert(template@ =~= spec_template(specs@.take(0)));
        assert(uints(upos@) =~= spec_upos(specs@.take(0)));
        assert(knowns@ =~= spec_knowns(specs@.take(0)));
    }
    while i < specs.len()
        invariant
            i <= specs@.len(),
            template@ == spec_template(specs@.take(i as int)),
            uints(upos@) == spec_upos(specs@.take(i as int)),
            knowns@ == spec_knowns(specs@.take(i as int)),
            forall|k: int| 0 <= k < upos@.len() ==> #[trigger] upos@[k] < i,
        decreases specs@.len() - i,
    {
        proof {
            assert(specs@.take(i + 1).drop_last() =~= specs@.take(i as int));
            assert(specs@.take(i + 1).last() == specs@[i as int]);
        }
        match specs[i] {
            ForegroundColorSpec::Known(c) => {
                template.push(c);
                knowns.push(c);
                proof {
                    assert(uints(upos@) + Seq::<int>::empty() =~= uints(upos@));
                }
            },
            ForegroundColorSpec::Unknown => {
                template.push(RgbColor { r: 128, g: 128, b: 128 });
                upos.push(i);
                proof {
                    assert(uints(upos@) =~= uints(upos@.drop_last()) + seq![i as int]);
                    assert(knowns@ + Seq::<RgbColor>::empty() =~= knowns@);
                }
            },
        }
        i = i + 1;
    }
    proof {
        assert(specs@.take(specs@.len() as int) =~= specs@);
    }
    (template, upos, knowns)
}

/// Union the standard reference colors into the candidates.
fn union_standard(
    cands: Vec<RgbColor>,
    knowns: &Vec<RgbColor>,
    background: &RgbColor,
    threshold_milli: u32,
) -> (r: Vec<RgbColor>)
    requires
        threshold_milli <= 1000,
    ensures
        r@ == spec_union_standard(
            cands@,
            knowns@,
            *background,
            threshold_milli as int,
            0,
        ),
{
    let bg = *background;
    let ghost cands0 = cands@;
    let std_colors: [RgbColor; 8] = [
        RgbColor { r: 255, g: 0, b: 0 },
        RgbColor { r: 0, g: 255, b: 0 },
        RgbColor { r: 0, g: 0, b: 255 },
        RgbColor { r: 255, g: 255, b: 0 },
        RgbColor { r: 255, g: 0, b: 255 },
        RgbColor { r: 0, g: 255, b: 255 },
        RgbColor { r: 255, g: 128, b: 0 },
        RgbColor { r: 128, g: 0, b: 255 },
    ];
    let mut out = cands;
    let mut a: usize = 0;
    while a < 8
        invariant
            a <= 8,
            bg == *background,
            threshold_milli <= 1000,
            std_colors@ =~= spec_standard_colors(),
            spec_union_standard(out@, knowns@, bg, threshold_milli as int, a as int)
                == spec_union_standard(cands0, knowns@, bg, threshold_milli as int, 0),
        decreases 8 - a,
    {
        let c = std_colors[a];
        proof {
            assert(c == spec_standard_colors()[a as int]);
        }
        let known = contains_color(knowns, &c);
        let same_bg = c.r == bg.r && c.g == bg.g && c.b == bg.b;
        proof {
            assert(same_bg == (c == bg));
        }
        let mut close = false;
        let mut k: usize = 0;
        while k < out.len()
            invariant
                k <= out@.len(),
                threshold_milli <= 1000,
                close == exists|t: int|
                    0 <= t < k && within_threshold(
                        dist2(#[trigger] out@[t], c),
                        threshold_milli as int,
                    ),
            decreases out@.len() - k,
        {
            if !close {
                let d2 = color_dist2(&out[k], &c);
                if dist2_below_threshold(d2, threshold_milli) {
                    close = true;
                }
            }
            k = k + 1;
        }
        proof {
            assert(close == spec_has_close(out@, c, threshold_milli as int));
        }
        if !known && !same_bg && !close {
            out.push(c);
        }
        a = a + 1;
    }
    out
}

/// Resolve every unknown foreground slot from the image's own colors:
/// candidates are proposed from the most frequent colors, de-duplicated,
/// joined by the standard reference colors, and searched — singly, in
/// pairs, or in triples, within the documented caps — for the assignment
/// with the lowest whole-image reconstruction score.  Known colors pass
/// through verbatim, and slots that nothing resolves stay neutral gray.
pub fn deduce_unknown_colors(
    pixels: &Vec<RgbColor>,
    specs: &Vec<ForegroundColorSpec>,
    background_color: &RgbColor,
    threshold_milli: u32,
) -> (r: Vec<RgbColor>)
    requires
        threshold_milli <= 1000,
        pixels@.len() <= 0x100000000,
        specs@.len() <= 0x10000000,
    ensures
        r@ == spec_deduce(pixels@, specs@, *background_color, threshold_milli as int),
{
    let bg = *background_color;
    let (template, upos, knowns) = split_specs(specs);
    let uc = upos.len();
    if uc == 0 {
        return template;
    }
    proof {
        assert(upos@.len() <= specs@.len()) by {
            assert(uints(upos@).len() == upos@.len());
            lemma_upos_len(specs@);
        }
        lemma_template_len(specs@);
        assert(template@.len() == specs@.len());
        crate::hist::lemma_histogram_len(pixels@);
    }
    let hist = crate::hist::build_histogram(pixels);
    let top = crate::hist::top_entries(&hist, 100);
    let deduped = raw_deduped_candidates(&top, &bg, threshold_milli);
    let reduced = if deduped.len() > 10 * uc {
        select_most_different_colors(&deduped, 10 * uc)
    } else {
        deduped
    };
    let all = union_standard(reduced, &knowns, &bg, threshold_milli);
    let ghost tmpl = template@;
    let ghost entries = hist@;
    if uc == 1 {
        let p0 = upos[0];
        let mut best_sc: Option<u128> = None;
        let mut best_asg = copy_colors(&template);
        let mut i: usize = 0;
        while i < all.len()
            invariant
                i <= all@.len(),
                bg == *background_color,
                1 <= tmpl.len() <= 0x10000000,
                entries.len() <= 0x100000000,
                p0 < tmpl.len(),
                template@ == tmpl,
                entries == hist@,
                best_asg@.len() == tmpl.len(),
                spec_search1(
                    all@,
                    i as int,
                    (opt_score(best_sc), best_asg@),
                    tmpl,
                    p0 as int,
                    entries,
                    bg,
                ) == spec_search1(all@, 0, (None, tmpl), tmpl, p0 as int, entries, bg),
            decreases all@.len() - i,
        {
            let asg = assign1(&template, p0, all[i]);
            let sc = evaluate_color_set(&asg, &hist, &bg);
            let beats = match (sc, best_sc) {
                (Some(s), Some(b)) => s < b,
                (Some(_), None) => true,
                (None, _) => false,
            };
            if beats {
                best_sc = sc;
                best_asg = asg;
            }
            i = i + 1;
        }
        best_asg
    } else if uc == 2 && all.len() <= 30 {
        let p0 = upos[0];
        let p1 = upos[1];
        let mut best_sc: Option<u128> = None;
        let mut best_asg = copy_colors(&template);
        let mut pi: usize = 0;
        while pi < all.len()
            invariant
                pi <= all@.len(),
                bg == *background_color,
                1 <= tmpl.len() <= 0x10000000,
                entries.len() <= 0x100000000,
                p0 < tmpl.len() && p1 < tmpl.len(),
                template@ == tmpl,
                entries == hist@,
                best_asg@.len() == tmpl.len(),
                spec_search2(
                    all@,
                    pi as int,
                    pi as int + 1,
                    (opt_score(best_sc), best_asg@),
                    tmpl,
                    p0 as int,
                    p1 as int,
                    entries,
                    bg,
                ) == spec_search2(all@, 0, 1, (None, tmpl), tmpl, p0 as int, p1 as int, entries, bg),
            decreases all@.len() - pi,
        {
            let mut pj: usize = pi + 1;
            while pj < all.len()
                invariant
                    pi < all@.len(),
                    pi < pj,
                    bg == *background_color,
                    1 <= tmpl.len() <= 0x10000000,
                    entries.len() <= 0x100000000,
                    p0 < tmpl.len() && p1 < tmpl.len(),
                    template@ == tmpl,
                    entries == hist@,
                    best_asg@.len() == tmpl.len(),
                    spec_search2(
                        all@,
                        pi as int,
                        pj as int,
                        (opt_score(best_sc), best_asg@),
                        tmpl,
                        p0 as int,
                        p1 as int,
                        entries,
                        bg,
                    ) == spec_search2(
                        all@,
                        0,
                        1,
                        (None, tmpl),
                        tmpl,
                        p0 as int,
                        p1 as int,
                        entries,
                        bg,
                    ),
                decreases all@.len() - pj,
            {
                let mut asg = assign1(&template, p0, all[pi]);
                asg[p1] = all[pj];
                let sc = evaluate_color_set(&asg, &hist, &bg);
                let beats = match (sc, best_sc) {
                    (Some(s), Some(b)) => s < b,
                    (Some(_), None) => true,
                    (None, _) => false,
                };
                if beats {
                    best_sc = sc;
                    best_asg = asg;
                }
                pj = pj + 1;
            }
            pi = pi + 1;
        }
        best_asg
    } else if uc == 3 {
        let cs = if all.len() <= 25 {
            all
        } else {
            select_most_different_colors(&all, 20)
        };
        let p0 = upos[0];
        let p1 = upos[1];
        let p2 = upos[2];
        let mut best_sc: Option<u128> = None;
        let mut best_asg = copy_colors(&template);
        let mut pi: usize = 0;
        while pi < cs.len()
            invariant
                pi <= cs@.len(),
                bg == *background_color,
                1 <= tmpl.len() <= 0x10000000,
                entries.len() <= 0x100000000,
                p0 < tmpl.len() && p1 < tmpl.len() && p2 < tmpl.len(),
                template@ == tmpl,
                entries == hist@,
                best_asg@.len() == tmpl.len(),
                spec_search3(
                    cs@,
                    pi as int,
                    pi as int + 1,
                    pi as int + 2,
                    (opt_score(best_sc), best_asg@),
                    tmpl,
                    p0 as int,
                    p1 as int,
                    p2 as int,
                    entries,
                    bg,
                ) == spec_search3(
                    cs@,
                    0,
                    1,
                    2,
                    (None, tmpl),
                    tmpl,
                    p0 as int,
                    p1 as int,
                    p2 as int,
                    entries,
                    bg,
                ),
            decreases cs@.len() - pi,
        {
            let mut pj: usize = pi + 1;
            while pj < cs.len()
                invariant
                    pi < cs@.len(),
                    pi < pj,
                    bg == *background_color,
                    1 <= tmpl.len() <= 0x10000000,
                    entries.len() <= 0x100000000,
                    p0 < tmpl.len() && p1 < tmpl.len() && p2 < tmpl.len(),
                    template@ == tmpl,
                    entries == hist@,
                    best_asg@.len() == tmpl.len(),
                    spec_search3(
                        cs@,
                        pi as int,
                        pj as int,
                        pj as int + 1,
                        (opt_score(best_sc), best_asg@),
                        tmpl,
                        p0 as int,
                        p1 as int,
                        p2 as int,
                        entries,
                        bg,
                    ) == spec_search3(
                        cs@,
                        0,
                        1,
                        2,
                        (None, tmpl),
                        tmpl,
                        p0 as int,
                        p1 as int,
                        p2 as int,
                        entries,
                        bg,
                    ),
                decreases cs@.len() - pj,
            {
                let mut pk: usize = pj + 1;
                while pk < cs.len()
                    invariant
                        pi < cs@.len(),
                        pi < pj < cs@.len(),
                        pj < pk,
                        bg == *background_color,
                        1 <= tmpl.len() <= 0x10000000,
                        entries.len() <= 0x100000000,
                        p0 < tmpl.len() && p1 < tmpl.len() && p2 < tmpl.len(),
                        template@ == tmpl,
                        entries == hist@,
                        best_asg@.len() == tmpl.len(),
                        spec_search3(
                            cs@,
                            pi as int,
                            pj as int,
                            pk as int,
                            (opt_score(best_sc), best_asg@),
                            tmpl,
                            p0 as int,
                            p1 as int,
                            p2 as int,
                            entries,
                            bg,
                        ) == spec_search3(
                            cs@,
                            0,
                            1,
                            2,
                            (None, tmpl),
                            tmpl,
                            p0 as int,
                            p1 as int,
                            p2 as int,
                            entries,
                            bg,
                        ),
                    decreases cs@.len() - pk,
                {
                    let mut asg = assign1(&template, p0, cs[pi]);
                    asg[p1] = cs[pj];
                    asg[p2] = cs[pk];
                    let sc = evaluate_color_set(&asg, &hist, &bg);
                    let beats = match (sc, best_sc) {
                        (Some(s), Some(b)) => s < b,
                        (Some(_), None) => true,
                        (None, _) => false,
                    };
                    if beats {
                        best_sc = sc;
                        best_asg = asg;
                    }
                    pk = pk + 1;
                }
                pj = pj + 1;
            }
            pi = pi + 1;
        }
        best_asg
    } else {
        let sel = select_most_different_colors(&all, uc);
        let mut cur = template;
        let mut j: usize = 0;
        let ghost selv = sel@;
        while j < upos.len() && j < sel.len()
            invariant
                j <= upos@.len(),
                j <= selv.len(),
                selv == sel@,
                cur@.len() == tmpl.len(),
                forall|k: int| 0 <= k < upos@.len() ==> #[trigger] upos@[k] < cur@.len(),
                spec_apply_list(cur@, uints(upos@), selv, j as int) == spec_apply_list(
                    tmpl,
                    uints(upos@),
                    selv,
                    0,
                ),
            decreases upos@.len() - j,
        {
            cur[upos[j]] = sel[j];
            j = j + 1;
        }
        proof {
            assert(spec_apply_list(cur@, uints(upos@), selv, j as int) == cur@);
        }
        cur
    }
}

/// There are at most as many unknown slots as request entries.
proof fn lemma_upos_len(specs: Seq<ForegroundColorSpec>)
    ensures
        spec_upos(specs).len() <= specs.len(),
    decreases specs.len(),
{
    if specs.len() > 0 {
        lemma_upos_len(specs.drop_last());
    }
}

/// The working template has one slot per request entry.
proof fn lemma_template_len(specs: Seq<ForegroundColorSpec>)
    ensures
        spec_template(specs).len() == specs.len(),
    decreases specs.len(),
{
    if specs.len() > 0 {
        lemma_template_len(specs.drop_last());
    }
}

} // verus!
