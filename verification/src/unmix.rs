//! Unmixing an observed color into per-foreground weights over a background.
//!
//! Every weight is an exact rational: a vector of numerators over one common
//! positive denominator.  The recovered opacity (alpha) is always the sum of
//! the weights, so the well-formedness invariant `sum <= den` is exactly the
//! promise that the weights are nonnegative and sum to at most one.

use vstd::prelude::*;

use crate::color::RgbColor;
use crate::math::clamp0;
use crate::math::det3_i64;
use crate::math::diff_mul;
use crate::math::ints_of;
use crate::math::lemma_sum_int2;
use crate::math::lemma_sum_int3;
use crate::math::lemma_sum_int_le_count;
use crate::math::lemma_sum_int_nonneg;
use crate::math::lemma_sum_int_take_le;
use crate::math::lemma_sum_int_take_step;
use crate::math::lemma_sum_int_unit;
use crate::math::mul_i128_bounded;
use crate::math::round_div_u128;
use crate::math::spec_det2;
use crate::math::spec_det3;
use crate::math::spec_round_div;
use crate::math::sum_int;

verus! {

/// Default closeness threshold, in thousandths of a normalized unit
/// (50/1000 = 0.05 of the maximum channel range).
pub const DEFAULT_THRESHOLD_MILLI: u32 = 50;

/// Upper bound on every weight denominator; all downstream arithmetic on
/// well-formed results is proven to stay inside `i128` under this bound.
pub const DEN_BOUND: i128 = 0x100000000000000000;

/// Foreground sets larger than this take the documented degradation (full
/// weight to the first color in simple mode, the single/pair search alone
/// in optimized mode): the cap keeps every determinant inside `i128`, and
/// lies far above the handful of colors the decomposition is meant for.
pub const MAX_FOREGROUNDS: usize = 32;

/// Result of unmixing: one exact rational weight per foreground color, all
/// over the common denominator `weight_den`.  The recovered alpha is the sum
/// of the weights.
pub struct UnmixResult {
    /// Weight numerators, in foreground order.
    pub weight_nums: Vec<i128>,
    /// The positive denominator shared by all weights.
    pub weight_den: i128,
}

impl UnmixResult {
    /// Numerator of the recovered alpha: the sum of the weight numerators.
    pub open spec fn alpha_num(self) -> int {
        sum_int(ints_of(self.weight_nums@))
    }

    /// Well-formed results have a positive bounded denominator and
    /// nonnegative weights that sum to at most one.
    pub open spec fn wf(self) -> bool {
        &&& 1 <= self.weight_den <= DEN_BOUND
        &&& forall|j: int| 0 <= j < self.weight_nums@.len() ==> 0 <= #[trigger] self
            .weight_nums@[j]
        &&& self.alpha_num() <= self.weight_den
    }

    /// The recovered alpha, rounded to a byte: `round(255 * alpha)`.
    pub fn alpha_byte(&self) -> (a: u8)
        requires
            self.wf(),
        ensures
            a == spec_round_div(255 * self.alpha_num(), self.weight_den as int),
    {
        let s = sum_weight_nums(&self.weight_nums, Ghost(self.weight_den as int));
        let n: u128 = 255 * (s as u128);
        round_div_u128(n, self.weight_den as u128) as u8
    }
}

/// Sum the weight numerators of a well-formed result.
pub fn sum_weight_nums(nums: &Vec<i128>, Ghost(bound): Ghost<int>) -> (s: i128)
    requires
        forall|j: int| 0 <= j < nums@.len() ==> 0 <= #[trigger] nums@[j],
        sum_int(ints_of(nums@)) <= bound,
        bound <= DEN_BOUND,
    ensures
        s == sum_int(ints_of(nums@)),
        0 <= s <= bound,
{
    let ghost all = ints_of(nums@);
    let mut s: i128 = 0;
    let mut j: usize = 0;
    proof {
        assert(all.take(0) =~= Seq::<int>::empty());
        lemma_sum_int_nonneg(all);
    }
    while j < nums.len()
        invariant
            j <= nums@.len(),
            all == ints_of(nums@),
            all.len() == nums@.len(),
            forall|k: int| 0 <= k < nums@.len() ==> 0 <= #[trigger] nums@[k],
            forall|k: int| 0 <= k < all.len() ==> all[k] == nums@[k],
            sum_int(all) <= bound,
            bound <= DEN_BOUND,
            s == sum_int(all.take(j as int)),
            0 <= s,
        decreases nums@.len() - j,
    {
        proof {
            lemma_sum_int_take_step(all, j as int);
            lemma_sum_int_take_le(all, j as int + 1);
        }
        s = s + nums[j];
        j = j + 1;
    }
    proof {
        assert(all.take(nums@.len() as int) =~= all);
    }
    s
}

/// Channel differences of `c` relative to `base`, each in `[-255, 255]`.
fn channel_diffs(c: &RgbColor, base: &RgbColor) -> (d: (i64, i64, i64))
    ensures
        d.0 == c.r - base.r && d.1 == c.g - base.g && d.2 == c.b - base.b,
        -255 <= d.0 <= 255 && -255 <= d.1 <= 255 && -255 <= d.2 <= 255,
{
    (
        c.r as i64 - base.r as i64,
        c.g as i64 - base.g as i64,
        c.b as i64 - base.b as i64,
    )
}

/// `sum_i (x_i - base_i) * (y_i - base_i)`, the inner product of two colors
/// relative to a base color, in squared byte units.
pub open spec fn dot_diff(x: RgbColor, y: RgbColor, base: RgbColor) -> int {
    (x.r - base.r) * (y.r - base.r) + (x.g - base.g) * (y.g - base.g) + (x.b - base.b) * (y.b
        - base.b)
}

/// Squared length of `f - base`: the single-color denominator.
pub open spec fn nsq(f: RgbColor, base: RgbColor) -> int {
    dot_diff(f, f, base)
}

/// Exact inner product of two colors relative to a base.
pub fn dot_diff_exec(x: &RgbColor, y: &RgbColor, base: &RgbColor) -> (d: i64)
    ensures
        d == dot_diff(*x, *y, *base),
        -195075 <= d <= 195075,
{
    let dx = channel_diffs(x, base);
    let dy = channel_diffs(y, base);
    diff_mul(dx.0, dy.0) + diff_mul(dx.1, dy.1) + diff_mul(dx.2, dy.2)
}

/// `nsq` is a sum of squares, hence nonnegative.
pub proof fn lemma_nsq_nonneg(f: RgbColor, base: RgbColor)
    ensures
        nsq(f, base) >= 0,
        f == base ==> nsq(f, base) == 0,
{
    let dr = f.r - base.r;
    let dg = f.g - base.g;
    let db = f.b - base.b;
    assert(dr * dr + dg * dg + db * db >= 0) by (nonlinear_arith);
    assert(nsq(f, base) == dr * dr + dg * dg + db * db);
    if f == base {
        assert(f.r == base.r && f.g == base.g && f.b == base.b);
        assert(dr == 0 && dg == 0 && db == 0);
        assert(dr * dr + dg * dg + db * db == 0) by (nonlinear_arith)
            requires
                dr == 0,
                dg == 0,
                db == 0,
        ;
        assert(nsq(f, base) == 0);
    }
}

/// The single-color weight as an exact rational `(num, den)`: the projection
/// of `observed - background` onto `foreground - background`, clamped to
/// `[0, 1]`.  A foreground equal to the background gets weight zero.
pub open spec fn spec_single_weight(o: RgbColor, f: RgbColor, bg: RgbColor) -> (int, int) {
    let n = nsq(f, bg);
    if n == 0 {
        (0, 1)
    } else {
        let d = dot_diff(o, f, bg);
        if d <= 0 {
            (0, n)
        } else if d >= n {
            (n, n)
        } else {
            (d, n)
        }
    }
}

/// Unmix against a single foreground color: project `observed - background`
/// onto `foreground - background` and clamp the ratio to `[0, 1]`.
pub fn unmix_single_color(observed: &RgbColor, foreground: &RgbColor, background: &RgbColor) -> (r:
    UnmixResult)
    ensures
        r.wf(),
        r.weight_nums@.len() == 1,
        (r.weight_nums@[0] as int, r.weight_den as int) == spec_single_weight(
            *observed,
            *foreground,
            *background,
        ),
{
    proof {
        lemma_nsq_nonneg(*foreground, *background);
    }
    let n = dot_diff_exec(foreground, foreground, background);
    let (num, den): (i128, i128) = if n == 0 {
        (0, 1)
    } else {
        let d = dot_diff_exec(observed, foreground, background);
        if d <= 0 {
            (0, n as i128)
        } else if d >= n {
            (n as i128, n as i128)
        } else {
            (d as i128, n as i128)
        }
    };
    let mut nums: Vec<i128> = Vec::new();
    nums.push(num);
    let r = UnmixResult { weight_nums: nums, weight_den: den };
    proof {
        assert(ints_of(r.weight_nums@) =~= seq![num as int]);
        assert(sum_int(seq![num as int]) == num as int) by {
            assert(seq![num as int].drop_last() =~= Seq::<int>::empty());
            assert(sum_int(Seq::<int>::empty()) == 0);
        }
    }
    r
}

/// Compositing `a*F + (1-a)*B` and unmixing against `F`, `B` recovers the
/// opacity exactly: whenever the observed color lies on the segment from
/// the background to a distinct foreground at the rational ratio `p/q`
/// (channelwise `q*(o-bg) == p*(f-bg)`), the single-color weight is exactly
/// `p/q`.  Inputs whose blend does not land on byte values are outside this
/// exact statement.
pub proof fn lemma_single_unmix_roundtrip(o: RgbColor, f: RgbColor, bg: RgbColor, p: int, q: int)
    requires
        0 <= p <= q,
        1 <= q,
        nsq(f, bg) > 0,
        q * (o.r - bg.r) == p * (f.r - bg.r),
        q * (o.g - bg.g) == p * (f.g - bg.g),
        q * (o.b - bg.b) == p * (f.b - bg.b),
    ensures
        q * spec_single_weight(o, f, bg).0 == p * spec_single_weight(o, f, bg).1,
{
    let n = nsq(f, bg);
    let d = dot_diff(o, f, bg);
    assert(q * d == p * n && (d <= 0 ==> p == 0) && (d >= n ==> p == q)) by (nonlinear_arith)
        requires
            0 <= p <= q,
            1 <= q,
            n > 0,
            q * (o.r - bg.r) == p * (f.r - bg.r),
            q * (o.g - bg.g) == p * (f.g - bg.g),
            q * (o.b - bg.b) == p * (f.b - bg.b),
            n == (f.r - bg.r) * (f.r - bg.r) + (f.g - bg.g) * (f.g - bg.g) + (f.b - bg.b) * (f.b
                - bg.b),
            d == (o.r - bg.r) * (f.r - bg.r) + (o.g - bg.g) * (f.g - bg.g) + (o.b - bg.b) * (f.b
                - bg.b),
    ;
    if d <= 0 {
        assert(spec_single_weight(o, f, bg) == (0int, n));
        assert(q * 0 == p * n) by (nonlinear_arith)
            requires
                p == 0,
        ;
    } else if d >= n {
        assert(spec_single_weight(o, f, bg) == (n, n));
        assert(q * n == p * n) by (nonlinear_arith)
            requires
                p == q,
        ;
    } else {
        assert(spec_single_weight(o, f, bg) == (d, n));
    }
}

/// Weighted channel sums `sum_j nums[j] * channel(fgs[j])`, used to blend the
/// output color of a result.
pub open spec fn wsum_r(nums: Seq<int>, fgs: Seq<RgbColor>) -> int
    decreases nums.len(),
{
    if nums.len() == 0 || nums.len() != fgs.len() {
        0
    } else {
        wsum_r(nums.drop_last(), fgs.drop_last()) + nums.last() * fgs.last().r
    }
}

pub open spec fn wsum_g(nums: Seq<int>, fgs: Seq<RgbColor>) -> int
    decreases nums.len(),
{
    if nums.len() == 0 || nums.len() != fgs.len() {
        0
    } else {
        wsum_g(nums.drop_last(), fgs.drop_last()) + nums.last() * fgs.last().g
    }
}

pub open spec fn wsum_b(nums: Seq<int>, fgs: Seq<RgbColor>) -> int
    decreases nums.len(),
{
    if nums.len() == 0 || nums.len() != fgs.len() {
        0
    } else {
        wsum_b(nums.drop_last(), fgs.drop_last()) + nums.last() * fgs.last().b
    }
}

pub proof fn lemma_wsum_bounds(nums: Seq<int>, fgs: Seq<RgbColor>)
    requires
        nums.len() == fgs.len(),
        forall|k: int| 0 <= k < nums.len() ==> nums[k] >= 0,
    ensures
        0 <= wsum_r(nums, fgs) <= 255 * sum_int(nums),
        0 <= wsum_g(nums, fgs) <= 255 * sum_int(nums),
        0 <= wsum_b(nums, fgs) <= 255 * sum_int(nums),
    decreases nums.len(),
{
    if nums.len() > 0 {
        lemma_wsum_bounds(nums.drop_last(), fgs.drop_last());
        assert(0 <= nums.last() * fgs.last().r <= 255 * nums.last()) by (nonlinear_arith)
            requires
                nums.last() >= 0,
                0 <= fgs.last().r <= 255,
        ;
        assert(0 <= nums.last() * fgs.last().g <= 255 * nums.last()) by (nonlinear_arith)
            requires
                nums.last() >= 0,
                0 <= fgs.last().g <= 255,
        ;
        assert(0 <= nums.last() * fgs.last().b <= 255 * nums.last()) by (nonlinear_arith)
            requires
                nums.last() >= 0,
                0 <= fgs.last().b <= 255,
        ;
    }
}

pub proof fn lemma_wsum_take_step(nums: Seq<int>, fgs: Seq<RgbColor>, j: int)
    requires
        nums.len() == fgs.len(),
        0 <= j < nums.len(),
    ensures
        wsum_r(nums.take(j + 1), fgs.take(j + 1)) == wsum_r(nums.take(j), fgs.take(j)) + nums[j]
            * fgs[j].r,
        wsum_g(nums.take(j + 1), fgs.take(j + 1)) == wsum_g(nums.take(j), fgs.take(j)) + nums[j]
            * fgs[j].g,
        wsum_b(nums.take(j + 1), fgs.take(j + 1)) == wsum_b(nums.take(j), fgs.take(j)) + nums[j]
            * fgs[j].b,
{
    assert(nums.take(j + 1).drop_last() =~= nums.take(j));
    assert(fgs.take(j + 1).drop_last() =~= fgs.take(j));
}

/// The color a result stands for: the weight-normalized blend of the
/// foreground colors, rounded to bytes, or black when alpha is zero.
pub open spec fn spec_result_rgb(nums: Seq<int>, fgs: Seq<RgbColor>) -> RgbColor {
    let s = sum_int(nums);
    if s == 0 {
        (RgbColor { r: 0, g: 0, b: 0 })
    } else {
        (RgbColor {
            r: spec_round_div(wsum_r(nums, fgs), s) as u8,
            g: spec_round_div(wsum_g(nums, fgs), s) as u8,
            b: spec_round_div(wsum_b(nums, fgs), s) as u8,
        })
    }
}

/// Blend the output color of an unmix result: the weight-normalized blend of
/// the foreground colors (black when fully transparent), plus the alpha byte.
pub fn compute_result_color(unmix_result: &UnmixResult, foreground_colors: &Vec<RgbColor>) -> (r: (
    RgbColor,
    u8,
))
    requires
        unmix_result.wf(),
        unmix_result.weight_nums@.len() == foreground_colors@.len(),
    ensures
        r.0 == spec_result_rgb(ints_of(unmix_result.weight_nums@), foreground_colors@),
        r.1 == spec_round_div(255 * unmix_result.alpha_num(), unmix_result.weight_den as int),
{
    let a = unmix_result.alpha_byte();
    let s = sum_weight_nums(&unmix_result.weight_nums, Ghost(unmix_result.weight_den as int));
    let ghost nums = ints_of(unmix_result.weight_nums@);
    let ghost fgs = foreground_colors@;
    if s == 0 {
        (RgbColor { r: 0, g: 0, b: 0 }, a)
    } else {
        let mut wr: i128 = 0;
        let mut wg: i128 = 0;
        let mut wb: i128 = 0;
        let mut j: usize = 0;
        proof {
            assert(nums.take(0) =~= Seq::<int>::empty());
            assert(fgs.take(0) =~= Seq::<RgbColor>::empty());
            lemma_wsum_bounds(nums, fgs);
        }
        while j < foreground_colors.len()
            invariant
                j <= fgs.len(),
                nums == ints_of(unmix_result.weight_nums@),
                nums.len() == fgs.len(),
                fgs == foreground_colors@,
                forall|k: int| 0 <= k < nums.len() ==> #[trigger] nums[k] >= 0 && nums[k]
                    == unmix_result.weight_nums@[k],
                sum_int(nums) <= DEN_BOUND,
                wr == wsum_r(nums.take(j as int), fgs.take(j as int)),
                wg == wsum_g(nums.take(j as int), fgs.take(j as int)),
                wb == wsum_b(nums.take(j as int), fgs.take(j as int)),
                0 <= wr <= 255 * sum_int(nums.take(j as int)),
                0 <= wg <= 255 * sum_int(nums.take(j as int)),
                0 <= wb <= 255 * sum_int(nums.take(j as int)),
                sum_int(nums.take(j as int)) <= sum_int(nums),
            decreases fgs.len() - j,
        {
            let ghost jj = j as int;
            proof {
                lemma_sum_int_take_le(nums, jj);
                lemma_sum_int_take_le(nums, jj + 1);
                lemma_sum_int_take_step(nums, jj);
                lemma_wsum_take_step(nums, fgs, jj);
                lemma_wsum_bounds(nums.take(jj), fgs.take(jj));
                lemma_wsum_bounds(nums.take(jj + 1), fgs.take(jj + 1));
            }
            let num_j = unmix_result.weight_nums[j];
            let f = foreground_colors[j];
            wr = wr + mul_i128_bounded(num_j, f.r as i128, Ghost(DEN_BOUND as int), Ghost(255));
            wg = wg + mul_i128_bounded(num_j, f.g as i128, Ghost(DEN_BOUND as int), Ghost(255));
            wb = wb + mul_i128_bounded(num_j, f.b as i128, Ghost(DEN_BOUND as int), Ghost(255));
            j = j + 1;
        }
        proof {
            assert(nums.take(nums.len() as int) =~= nums);
            assert(fgs.take(fgs.len() as int) =~= fgs);
        }
        let cr = round_div_u128(wr as u128, s as u128) as u8;
        let cg = round_div_u128(wg as u128, s as u128) as u8;
        let cb = round_div_u128(wb as u128, s as u128) as u8;
        (RgbColor { r: cr, g: cg, b: cb }, a)
    }
}

/// Channel `i` of `c - bg`, in byte units.
pub open spec fn chan(c: RgbColor, bg: RgbColor, i: int) -> int {
    if i == 0 {
        c.r - bg.r
    } else if i == 1 {
        c.g - bg.g
    } else {
        c.b - bg.b
    }
}

/// Entry `(i, k)` of the 3x3 Gram matrix `A * transpose(A)`, where the
/// columns of `A` are the foreground channel differences.
pub open spec fn gram_entry(fgs: Seq<RgbColor>, bg: RgbColor, i: int, k: int) -> int
    decreases fgs.len(),
{
    if fgs.len() == 0 {
        0
    } else {
        gram_entry(fgs.drop_last(), bg, i, k) + chan(fgs.last(), bg, i) * chan(fgs.last(), bg, k)
    }
}

/// The normal-equation determinant of the least-squares solve: for two or
/// three colors the Gram matrix of `transpose(A) * A`, for more colors the
/// 3x3 Gram matrix `A * transpose(A)` (the minimum-norm solve).
pub open spec fn spec_ls_det(fgs: Seq<RgbColor>, bg: RgbColor) -> int {
    if fgs.len() == 2 {
        spec_det2(
            dot_diff(fgs[0], fgs[0], bg),
            dot_diff(fgs[0], fgs[1], bg),
            dot_diff(fgs[0], fgs[1], bg),
            dot_diff(fgs[1], fgs[1], bg),
        )
    } else if fgs.len() == 3 {
        spec_det3(
            dot_diff(fgs[0], fgs[0], bg), dot_diff(fgs[0], fgs[1], bg), dot_diff(fgs[0], fgs[2], bg),
            dot_diff(fgs[0], fgs[1], bg), dot_diff(fgs[1], fgs[1], bg), dot_diff(fgs[1], fgs[2], bg),
            dot_diff(fgs[0], fgs[2], bg), dot_diff(fgs[1], fgs[2], bg), dot_diff(fgs[2], fgs[2], bg),
        )
    } else {
        spec_det3(
            gram_entry(fgs, bg, 0, 0), gram_entry(fgs, bg, 0, 1), gram_entry(fgs, bg, 0, 2),
            gram_entry(fgs, bg, 0, 1), gram_entry(fgs, bg, 1, 1), gram_entry(fgs, bg, 1, 2),
            gram_entry(fgs, bg, 0, 2), gram_entry(fgs, bg, 1, 2), gram_entry(fgs, bg, 2, 2),
        )
    }
}

/// Cramer numerator of weight `j` in the least-squares solve (unclamped).
pub open spec fn spec_ls_num(o: RgbColor, fgs: Seq<RgbColor>, bg: RgbColor, j: int) -> int {
    if fgs.len() == 2 {
        let g00 = dot_diff(fgs[0], fgs[0], bg);
        let g01 = dot_diff(fgs[0], fgs[1], bg);
        let g11 = dot_diff(fgs[1], fgs[1], bg);
        let c0 = dot_diff(o, fgs[0], bg);
        let c1 = dot_diff(o, fgs[1], bg);
        if j == 0 {
            g11 * c0 - g01 * c1
        } else {
            g00 * c1 - g01 * c0
        }
    } else if fgs.len() == 3 {
        let g00 = dot_diff(fgs[0], fgs[0], bg);
        let g01 = dot_diff(fgs[0], fgs[1], bg);
        let g02 = dot_diff(fgs[0], fgs[2], bg);
        let g11 = dot_diff(fgs[1], fgs[1], bg);
        let g12 = dot_diff(fgs[1], fgs[2], bg);
        let g22 = dot_diff(fgs[2], fgs[2], bg);
        let c0 = dot_diff(o, fgs[0], bg);
        let c1 = dot_diff(o, fgs[1], bg);
        let c2 = dot_diff(o, fgs[2], bg);
        if j == 0 {
            spec_det3(c0, g01, g02, c1, g11, g12, c2, g12, g22)
        } else if j == 1 {
            spec_det3(g00, c0, g02, g01, c1, g12, g02, c2, g22)
        } else {
            spec_det3(g00, g01, c0, g01, g11, c1, g02, g12, c2)
        }
    } else {
        chan(fgs[j], bg, 0) * spec_gram_y(o, fgs, bg, 0) + chan(fgs[j], bg, 1) * spec_gram_y(
            o,
            fgs,
            bg,
            1,
        ) + chan(fgs[j], bg, 2) * spec_gram_y(o, fgs, bg, 2)
    }
}

/// Cramer numerator of row `i` in the 3x3 minimum-norm solve
/// `(A * transpose(A)) y = observed - background`.
pub open spec fn spec_gram_y(o: RgbColor, fgs: Seq<RgbColor>, bg: RgbColor, i: int) -> int {
    let m00 = gram_entry(fgs, bg, 0, 0);
    let m01 = gram_entry(fgs, bg, 0, 1);
    let m02 = gram_entry(fgs, bg, 0, 2);
    let m11 = gram_entry(fgs, bg, 1, 1);
    let m12 = gram_entry(fgs, bg, 1, 2);
    let m22 = gram_entry(fgs, bg, 2, 2);
    let c0 = chan(o, bg, 0);
    let c1 = chan(o, bg, 1);
    let c2 = chan(o, bg, 2);
    if i == 0 {
        spec_det3(c0, m01, m02, c1, m11, m12, c2, m12, m22)
    } else if i == 1 {
        spec_det3(m00, c0, m02, m01, c1, m12, m02, c2, m22)
    } else {
        spec_det3(m00, m01, c0, m01, m11, c1, m02, m12, c2)
    }
}

/// The clamped least-squares weight numerators.
pub open spec fn spec_ls_pre(o: RgbColor, fgs: Seq<RgbColor>, bg: RgbColor) -> Seq<int> {
    Seq::new(fgs.len(), |j: int| clamp0(spec_ls_num(o, fgs, bg, j)))
}

/// Whether the bounded least-squares solve is available: at most
/// [`MAX_FOREGROUNDS`] colors and a nonsingular normal-equation matrix.
pub open spec fn spec_ls_ok(fgs: Seq<RgbColor>, bg: RgbColor) -> bool {
    fgs.len() <= 32 && spec_ls_det(fgs, bg) > 0
}

/// The denominator of the least-squares result: the determinant, or the
/// weight sum when that sum exceeds it (which renormalizes the weights to
/// sum to exactly one and pins alpha to one).
pub open spec fn spec_ls_den(o: RgbColor, fgs: Seq<RgbColor>, bg: RgbColor) -> int {
    let det = spec_ls_det(fgs, bg);
    let s = sum_int(spec_ls_pre(o, fgs, bg));
    if s > det {
        s
    } else {
        det
    }
}

/// A result equal to the bounded least-squares solve.
pub open spec fn ls_pinned(o: RgbColor, fgs: Seq<RgbColor>, bg: RgbColor, u: UnmixResult) -> bool {
    &&& u.wf()
    &&& u.weight_nums@.len() == fgs.len()
    &&& forall|j: int| 0 <= j < fgs.len() ==> u.weight_nums@[j] == clamp0(
        spec_ls_num(o, fgs, bg, j),
    )
    &&& u.weight_den == spec_ls_den(o, fgs, bg)
}

/// The documented degradation for a singular or oversized least-squares
/// solve: full weight to the first foreground color.
pub open spec fn spec_fallback_nums(n: int) -> Seq<int> {
    Seq::new(n as nat, |j: int| if j == 0 { 1 } else { 0 })
}

/// Full weight to the first color, as an `UnmixResult`.
fn fallback_result(n: usize) -> (r: UnmixResult)
    ensures
        r.wf(),
        r.weight_nums@.len() == n,
        ints_of(r.weight_nums@) == spec_fallback_nums(n as int),
        r.weight_den == 1,
{
    let mut nums: Vec<i128> = Vec::new();
    let mut j: usize = 0;
    while j < n
        invariant
            j <= n,
            nums@.len() == j,
            forall|k: int| 0 <= k < j ==> nums@[k] == if k == 0 { 1i128 } else { 0i128 },
        decreases n - j,
    {
        if j == 0 {
            nums.push(1);
        } else {
            nums.push(0);
        }
        j = j + 1;
    }
    proof {
        assert(ints_of(nums@) =~= spec_fallback_nums(n as int));
        lemma_sum_int_unit(n as int, 0, 1);
    }
    (UnmixResult { weight_nums: nums, weight_den: 1 })
}

/// The bounded least-squares solve, when it is available.
fn ls_candidate(observed: &RgbColor, fgs: &Vec<RgbColor>, background: &RgbColor) -> (r: Option<
    UnmixResult,
>)
    requires
        2 <= fgs@.len(),
    ensures
        r is Some <==> spec_ls_ok(fgs@, *background),
        r is Some ==> ls_pinned(*observed, fgs@, *background, r->0),
{
    let n = fgs.len();
    let o = *observed;
    let bg = *background;
    if n > MAX_FOREGROUNDS {
        return None;
    }
    if n == 2 {
        let g00 = dot_diff_exec(&fgs[0], &fgs[0], background);
        let g01 = dot_diff_exec(&fgs[0], &fgs[1], background);
        let g11 = dot_diff_exec(&fgs[1], &fgs[1], background);
        let c0 = dot_diff_exec(observed, &fgs[0], background);
        let c1 = dot_diff_exec(observed, &fgs[1], background);
        let ghost db: int = 195075;
        let det = mul_i128_bounded(g00 as i128, g11 as i128, Ghost(db), Ghost(db))
            - mul_i128_bounded(g01 as i128, g01 as i128, Ghost(db), Ghost(db));
        if det <= 0 {
            return None;
        }
        let n0 = mul_i128_bounded(g11 as i128, c0 as i128, Ghost(db), Ghost(db))
            - mul_i128_bounded(g01 as i128, c1 as i128, Ghost(db), Ghost(db));
        let n1 = mul_i128_bounded(g00 as i128, c1 as i128, Ghost(db), Ghost(db))
            - mul_i128_bounded(g01 as i128, c0 as i128, Ghost(db), Ghost(db));
        let w0: i128 = if n0 < 0 { 0 } else { n0 };
        let w1: i128 = if n1 < 0 { 0 } else { n1 };
        let mut nums: Vec<i128> = Vec::new();
        nums.push(w0);
        nums.push(w1);
        let s = w0 + w1;
        let den: i128 = if s > det { s } else { det };
        let u = UnmixResult { weight_nums: nums, weight_den: den };
        proof {
            assert(ints_of(u.weight_nums@) =~= spec_ls_pre(o, fgs@, bg));
            lemma_sum_int2(w0 as int, w1 as int);
            assert(sum_int(seq![w0 as int, w1 as int]) == s);
            assert(spec_ls_pre(o, fgs@, bg) =~= seq![w0 as int, w1 as int]);
        }
        return Some(u);
    }
    if n == 3 {
        let g00 = dot_diff_exec(&fgs[0], &fgs[0], background);
        let g01 = dot_diff_exec(&fgs[0], &fgs[1], background);
        let g02 = dot_diff_exec(&fgs[0], &fgs[2], background);
        let g11 = dot_diff_exec(&fgs[1], &fgs[1], background);
        let g12 = dot_diff_exec(&fgs[1], &fgs[2], background);
        let g22 = dot_diff_exec(&fgs[2], &fgs[2], background);
        let c0 = dot_diff_exec(observed, &fgs[0], background);
        let c1 = dot_diff_exec(observed, &fgs[1], background);
        let c2 = dot_diff_exec(observed, &fgs[2], background);
        let ghost gb: int = 195075;
        let det = det3_i64(
            g00, g01, g02,
            g01, g11, g12,
            g02, g12, g22,
            Ghost(gb), Ghost(gb), Ghost(gb),
        );
        if det <= 0 {
            return None;
        }
        let n0 = det3_i64(c0, g01, g02, c1, g11, g12, c2, g12, g22, Ghost(gb), Ghost(gb), Ghost(gb));
        let n1 = det3_i64(g00, c0, g02, g01, c1, g12, g02, c2, g22, Ghost(gb), Ghost(gb), Ghost(gb));
        let n2 = det3_i64(g00, g01, c0, g01, g11, c1, g02, g12, c2, Ghost(gb), Ghost(gb), Ghost(gb));
        let w0: i128 = if n0 < 0 { 0 } else { n0 };
        let w1: i128 = if n1 < 0 { 0 } else { n1 };
        let w2: i128 = if n2 < 0 { 0 } else { n2 };
        let mut nums: Vec<i128> = Vec::new();
        nums.push(w0);
        nums.push(w1);
        nums.push(w2);
        let s = w0 + w1 + w2;
        let den: i128 = if s > det { s } else { det };
        let u = UnmixResult { weight_nums: nums, weight_den: den };
        proof {
            assert(ints_of(u.weight_nums@) =~= spec_ls_pre(o, fgs@, bg));
            lemma_sum_int3(w0 as int, w1 as int, w2 as int);
            assert(spec_ls_pre(o, fgs@, bg) =~= seq![w0 as int, w1 as int, w2 as int]);
        }
        return Some(u);
    }
    // Four or more colors: minimum-norm solve through the 3x3 Gram matrix.
    let mut m00: i64 = 0;
    let mut m01: i64 = 0;
    let mut m02: i64 = 0;
    let mut m11: i64 = 0;
    let mut m12: i64 = 0;
    let mut m22: i64 = 0;
    let mut j: usize = 0;
    proof {
        assert(fgs@.take(0) =~= Seq::<RgbColor>::empty());
    }
    while j < n
        invariant
            j <= n <= 32,
            n == fgs@.len(),
            bg == *background,
            m00 == gram_entry(fgs@.take(j as int), bg, 0, 0),
            m01 == gram_entry(fgs@.take(j as int), bg, 0, 1),
            m02 == gram_entry(fgs@.take(j as int), bg, 0, 2),
            m11 == gram_entry(fgs@.take(j as int), bg, 1, 1),
            m12 == gram_entry(fgs@.take(j as int), bg, 1, 2),
            m22 == gram_entry(fgs@.take(j as int), bg, 2, 2),
            -65025 * j <= m00 <= 65025 * j,
            -65025 * j <= m01 <= 65025 * j,
            -65025 * j <= m02 <= 65025 * j,
            -65025 * j <= m11 <= 65025 * j,
            -65025 * j <= m12 <= 65025 * j,
            -65025 * j <= m22 <= 65025 * j,
        decreases n - j,
    {
        let d = channel_diffs(&fgs[j], background);
        proof {
            assert(fgs@.take(j + 1).drop_last() =~= fgs@.take(j as int));
            assert(fgs@.take(j + 1).last() == fgs@[j as int]);
        }
        m00 = m00 + diff_mul(d.0, d.0);
        m01 = m01 + diff_mul(d.0, d.1);
        m02 = m02 + diff_mul(d.0, d.2);
        m11 = m11 + diff_mul(d.1, d.1);
        m12 = m12 + diff_mul(d.1, d.2);
        m22 = m22 + diff_mul(d.2, d.2);
        j = j + 1;
    }
    proof {
        assert(fgs@.take(n as int) =~= fgs@);
    }
    let c = channel_diffs(observed, background);
    let ghost mb: int = 2080800;
    let det = det3_i64(m00, m01, m02, m01, m11, m12, m02, m12, m22, Ghost(mb), Ghost(mb), Ghost(mb));
    if det <= 0 {
        return None;
    }
    let y0 = det3_i64(c.0, m01, m02, c.1, m11, m12, c.2, m12, m22, Ghost(255), Ghost(mb), Ghost(mb));
    let y1 = det3_i64(m00, c.0, m02, m01, c.1, m12, m02, c.2, m22, Ghost(mb), Ghost(255), Ghost(mb));
    let y2 = det3_i64(m00, m01, c.0, m01, m11, c.1, m02, m12, c.2, Ghost(mb), Ghost(mb), Ghost(255));
    let ghost yb: int = 6624484819200000;
    let mut nums: Vec<i128> = Vec::new();
    let mut k: usize = 0;
    while k < n
        invariant
            k <= n == fgs@.len(),
            4 <= n <= 32,
            yb == 6624484819200000,
            y0 == spec_gram_y(o, fgs@, bg, 0) && -yb <= y0 <= yb,
            y1 == spec_gram_y(o, fgs@, bg, 1) && -yb <= y1 <= yb,
            y2 == spec_gram_y(o, fgs@, bg, 2) && -yb <= y2 <= yb,
            bg == *background,
            o == *observed,
            nums@.len() == k,
            forall|t: int| 0 <= t < k ==> nums@[t] == clamp0(spec_ls_num(o, fgs@, bg, t))
                && 0 <= #[trigger] nums@[t] <= 5068000000000000000i128,
        decreases n - k,
    {
        let d = channel_diffs(&fgs[k], background);
        let p0 = mul_i128_bounded(d.0 as i128, y0, Ghost(255), Ghost(yb as int));
        let p1 = mul_i128_bounded(d.1 as i128, y1, Ghost(255), Ghost(yb as int));
        let p2 = mul_i128_bounded(d.2 as i128, y2, Ghost(255), Ghost(yb as int));
        let w = p0 + p1 + p2;
        let wc: i128 = if w < 0 { 0 } else { w };
        proof {
            assert(wc == clamp0(spec_ls_num(o, fgs@, bg, k as int)));
            assert(wc <= 5068000000000000000i128);
        }
        nums.push(wc);
        k = k + 1;
    }
    proof {
        lemma_sum_int_le_count(ints_of(nums@), 5068000000000000000);
    }
    let s = sum_weight_nums(&nums, Ghost(32int * 5068000000000000000int));
    let den: i128 = if s > det { s } else { det };
    let u = UnmixResult { weight_nums: nums, weight_den: den };
    proof {
        assert(ints_of(u.weight_nums@) =~= spec_ls_pre(o, fgs@, bg));
    }
    Some(u)
}

/// The simple-mode weights: the bounded least-squares solve, or the
/// documented first-color fallback when that solve is unavailable.
pub open spec fn spec_simple_nums(o: RgbColor, fgs: Seq<RgbColor>, bg: RgbColor) -> Seq<int> {
    if spec_ls_ok(fgs, bg) {
        spec_ls_pre(o, fgs, bg)
    } else {
        spec_fallback_nums(fgs.len() as int)
    }
}

pub open spec fn spec_simple_den(o: RgbColor, fgs: Seq<RgbColor>, bg: RgbColor) -> int {
    if spec_ls_ok(fgs, bg) {
        spec_ls_den(o, fgs, bg)
    } else {
        1
    }
}

/// Least-squares unmix over two or more colors (the simple mode that scores
/// deduction trials): normal equations, negative weights clamped to zero, a
/// weight sum above one renormalized to exactly one; a singular or oversized
/// system degrades to full weight on the first color.
pub fn unmix_multiple_colors_simple(
    observed: &RgbColor,
    foreground_colors: &Vec<RgbColor>,
    background: &RgbColor,
) -> (r: UnmixResult)
    requires
        2 <= foreground_colors@.len(),
    ensures
        r.wf(),
        r.weight_nums@.len() == foreground_colors@.len(),
        ints_of(r.weight_nums@) == spec_simple_nums(*observed, foreground_colors@, *background),
        r.weight_den == spec_simple_den(*observed, foreground_colors@, *background),
{
    match ls_candidate(observed, foreground_colors, background) {
        Some(u) => {
            proof {
                assert(ints_of(u.weight_nums@) =~= spec_ls_pre(
                    *observed,
                    foreground_colors@,
                    *background,
                ));
            }
            u
        },
        None => fallback_result(foreground_colors.len()),
    }
}

/// Whether the single-color reconstruction error is strictly below a
/// threshold of `threshold_milli` thousandths: with weight `w = wn / n`,
/// the squared error `|w*(f-bg) - (o-bg)|^2 / (n^2 * 255^2)` is compared to
/// `(threshold_milli / 1000)^2` by cross-multiplication.
pub open spec fn spec_single_err_below(
    o: RgbColor,
    f: RgbColor,
    bg: RgbColor,
    threshold_milli: int,
) -> bool {
    let n = nsq(f, bg);
    let wn = spec_single_weight(o, f, bg).0;
    let ur = wn * chan(f, bg, 0) - n * chan(o, bg, 0);
    let ug = wn * chan(f, bg, 1) - n * chan(o, bg, 1);
    let ub = wn * chan(f, bg, 2) - n * chan(o, bg, 2);
    (ur * ur + ug * ug + ub * ub) * 1000000 < ((threshold_milli * threshold_milli) * 65025) * (n
        * n)
}

/// Whether some single foreground color alone reconstructs the observed
/// color within the closeness threshold.
pub open spec fn spec_close_any(
    o: RgbColor,
    fgs: Seq<RgbColor>,
    bg: RgbColor,
    threshold_milli: int,
) -> bool {
    exists|j: int|
        0 <= j < fgs.len() && nsq(#[trigger] fgs[j], bg) > 0 && spec_single_err_below(
            o,
            fgs[j],
            bg,
            threshold_milli,
        )
}

/// The exact single-color error test shared by the closeness classifier and
/// the opacity-optimized search.
fn single_err_below(
    observed: &RgbColor,
    f: &RgbColor,
    background: &RgbColor,
    threshold_milli: u32,
    wn: i128,
    nq: i64,
) -> (r: bool)
    requires
        threshold_milli <= 1000,
        nq == nsq(*f, *background),
        1 <= nq <= 195075,
        wn == spec_single_weight(*observed, *f, *background).0,
        0 <= wn <= nq,
    ensures
        r == spec_single_err_below(*observed, *f, *background, threshold_milli as int),
{
    let fd = channel_diffs(f, background);
    let od = channel_diffs(observed, background);
    let ur = mul_i128_bounded(wn, fd.0 as i128, Ghost(195075), Ghost(255)) - mul_i128_bounded(
        nq as i128,
        od.0 as i128,
        Ghost(195075),
        Ghost(255),
    );
    let ug = mul_i128_bounded(wn, fd.1 as i128, Ghost(195075), Ghost(255)) - mul_i128_bounded(
        nq as i128,
        od.1 as i128,
        Ghost(195075),
        Ghost(255),
    );
    let ub = mul_i128_bounded(wn, fd.2 as i128, Ghost(195075), Ghost(255)) - mul_i128_bounded(
        nq as i128,
        od.2 as i128,
        Ghost(195075),
        Ghost(255),
    );
    let s2 = mul_i128_bounded(ur, ur, Ghost(100000000), Ghost(100000000)) + mul_i128_bounded(
        ug,
        ug,
        Ghost(100000000),
        Ghost(100000000),
    ) + mul_i128_bounded(ub, ub, Ghost(100000000), Ghost(100000000));
    let lhs = s2 * 1000000;
    proof {
        assert(0 <= (threshold_milli as int) * (threshold_milli as int) <= 1000000)
            by (nonlinear_arith)
            requires
                0 <= threshold_milli <= 1000,
        ;
    }
    let tt = (threshold_milli as i128) * (threshold_milli as i128) * 65025;
    let nn = mul_i128_bounded(nq as i128, nq as i128, Ghost(195075), Ghost(195075));
    let rhs = mul_i128_bounded(tt, nn, Ghost(65025000000), Ghost(38054255625));
    lhs < rhs
}

/// Whether the observed color is close enough to some single foreground
/// color: solving for that color alone reconstructs the pixel within the
/// closeness threshold.
pub fn is_color_close_to_foreground(
    observed: &RgbColor,
    foreground_colors: &Vec<RgbColor>,
    background: &RgbColor,
    threshold_milli: u32,
) -> (r: bool)
    requires
        threshold_milli <= 1000,
    ensures
        r == spec_close_any(*observed, foreground_colors@, *background, threshold_milli as int),
{
    let mut i: usize = 0;
    while i < foreground_colors.len()
        invariant
            i <= foreground_colors@.len(),
            threshold_milli <= 1000,
            forall|k: int|
                0 <= k < i ==> !(nsq(#[trigger] foreground_colors@[k], *background) > 0
                    && spec_single_err_below(
                    *observed,
                    foreground_colors@[k],
                    *background,
                    threshold_milli as int,
                )),
        decreases foreground_colors@.len() - i,
    {
        let f = foreground_colors[i];
        proof {
            lemma_nsq_nonneg(f, *background);
        }
        let nq = dot_diff_exec(&f, &f, background);
        if nq > 0 {
            let d = dot_diff_exec(observed, &f, background);
            let wn: i128 = if d <= 0 {
                0
            } else if d >= nq {
                nq as i128
            } else {
                d as i128
            };
            if single_err_below(observed, &f, background, threshold_milli, wn, nq) {
                return true;
            }
        }
        i = i + 1;
    }
    false
}

/// All-zero weights over denominator one: the state the opacity-optimized
/// search starts from.
pub open spec fn spec_zero_nums(n: int) -> Seq<int> {
    Seq::new(n as nat, |j: int| 0)
}

fn zero_result(n: usize) -> (r: UnmixResult)
    ensures
        r.wf(),
        r.weight_nums@.len() == n,
        ints_of(r.weight_nums@) == spec_zero_nums(n as int),
        r.weight_den == 1,
        r.alpha_num() == 0,
{
    let mut nums: Vec<i128> = Vec::new();
    let mut j: usize = 0;
    while j < n
        invariant
            j <= n,
            nums@.len() == j,
            forall|k: int| 0 <= k < j ==> nums@[k] == 0i128,
        decreases n - j,
    {
        nums.push(0);
        j = j + 1;
    }
    proof {
        assert(ints_of(nums@) =~= spec_zero_nums(n as int));
        lemma_sum_int_le_count(ints_of(nums@), 0);
        lemma_sum_int_nonneg(ints_of(nums@));
    }
    (UnmixResult { weight_nums: nums, weight_den: 1 })
}

/// One weight `num/den` at position `i`, zero elsewhere.
fn unit_result(n: usize, i: usize, num: i128, den: i128) -> (r: UnmixResult)
    requires
        i < n,
        0 <= num <= den,
        1 <= den <= DEN_BOUND,
    ensures
        r.wf(),
        r.weight_nums@.len() == n,
        ints_of(r.weight_nums@) == Seq::new(n as nat, |j: int| if j == i { num as int } else { 0 }),
        r.weight_den == den,
        r.alpha_num() == num,
{
    let mut nums: Vec<i128> = Vec::new();
    let mut j: usize = 0;
    while j < n
        invariant
            j <= n,
            nums@.len() == j,
            forall|k: int| 0 <= k < j ==> nums@[k] == if k == i { num } else { 0i128 },
        decreases n - j,
    {
        if j == i {
            nums.push(num);
        } else {
            nums.push(0);
        }
        j = j + 1;
    }
    proof {
        assert(ints_of(nums@) =~= Seq::new(
            n as nat,
            |j: int| if j == i { num as int } else { 0 },
        ));
        lemma_sum_int_unit(n as int, i as int, num as int);
    }
    (UnmixResult { weight_nums: nums, weight_den: den })
}

/// Two weights `a/den` and `b/den` at positions `i < j`, zero elsewhere.
pub open spec fn spec_two_hot(n: int, i: int, j: int, a: int, b: int) -> Seq<int> {
    Seq::new(
        n as nat,
        |t: int|
            if t == i {
                a
            } else if t == j {
                b
            } else {
                0
            },
    )
}

proof fn lemma_sum_int_two_hot(n: int, i: int, j: int, a: int, b: int)
    requires
        0 <= i < j < n,
    ensures
        sum_int(spec_two_hot(n, i, j, a, b)) == a + b,
    decreases n,
{
    let s = spec_two_hot(n, i, j, a, b);
    if j == n - 1 {
        assert(s.drop_last() =~= Seq::new(
            (n - 1) as nat,
            |t: int| if t == i { a } else { 0 },
        ));
        lemma_sum_int_unit(n - 1, i, a);
        assert(s.last() == b);
    } else {
        assert(s.drop_last() =~= spec_two_hot(n - 1, i, j, a, b));
        lemma_sum_int_two_hot(n - 1, i, j, a, b);
        assert(s.last() == 0);
    }
}

fn two_hot_result(n: usize, i: usize, j: usize, a: i128, b: i128, den: i128) -> (r: UnmixResult)
    requires
        i < j < n,
        0 <= a,
        0 <= b,
        a + b <= den,
        1 <= den <= DEN_BOUND,
    ensures
        r.wf(),
        r.weight_nums@.len() == n,
        ints_of(r.weight_nums@) == spec_two_hot(n as int, i as int, j as int, a as int, b as int),
        r.weight_den == den,
        r.alpha_num() == a + b,
{
    let mut nums: Vec<i128> = Vec::new();
    let mut t: usize = 0;
    while t < n
        invariant
            t <= n,
            i < j < n,
            nums@.len() == t,
            forall|k: int|
                0 <= k < t ==> nums@[k] == if k == i {
                    a
                } else if k == j {
                    b
                } else {
                    0i128
                },
        decreases n - t,
    {
        if t == i {
            nums.push(a);
        } else if t == j {
            nums.push(b);
        } else {
            nums.push(0);
        }
        t = t + 1;
    }
    proof {
        assert(ints_of(nums@) =~= spec_two_hot(n as int, i as int, j as int, a as int, b as int));
        lemma_sum_int_two_hot(n as int, i as int, j as int, a as int, b as int);
    }
    (UnmixResult { weight_nums: nums, weight_den: den })
}

/// State of the opacity-optimized search: weight numerators and their
/// denominator; the candidate alpha is their sum over the denominator.
/// The search starts from the plain least-squares solution.  When that
/// solve is singular, oversized or fully transparent, it starts from all
/// zeros rather than the simple mode's first-color fallback: the single
/// and pair passes that follow are then free to find a better candidate.
pub open spec fn spec_opt_start(o: RgbColor, fgs: Seq<RgbColor>, bg: RgbColor) -> (Seq<int>, int) {
    if spec_ls_ok(fgs, bg) && sum_int(spec_ls_pre(o, fgs, bg)) > 0 {
        (spec_ls_pre(o, fgs, bg), spec_ls_den(o, fgs, bg))
    } else {
        (spec_zero_nums(fgs.len() as int), 1)
    }
}

/// One step of the single-color pass: take foreground `i` alone if its
/// clamped weight beats the current alpha and it reconstructs the pixel
/// within one hundredth of a normalized unit.
pub open spec fn spec_opt_single_step(
    best: (Seq<int>, int),
    o: RgbColor,
    fgs: Seq<RgbColor>,
    bg: RgbColor,
    i: int,
) -> (Seq<int>, int) {
    let n = nsq(fgs[i], bg);
    let wn = spec_single_weight(o, fgs[i], bg).0;
    if n > 0 && wn * best.1 > sum_int(best.0) * n && spec_single_err_below(o, fgs[i], bg, 10) {
        (Seq::new(fgs.len(), |j: int| if j == i { wn } else { 0 }), n)
    } else {
        best
    }
}

pub open spec fn spec_opt_singles(
    best: (Seq<int>, int),
    o: RgbColor,
    fgs: Seq<RgbColor>,
    bg: RgbColor,
    i: int,
) -> (Seq<int>, int)
    decreases fgs.len() - i,
{
    if i < 0 || i >= fgs.len() {
        best
    } else {
        spec_opt_singles(spec_opt_single_step(best, o, fgs, bg, i), o, fgs, bg, i + 1)
    }
}

/// The pair solve for foregrounds `i` and `j`: 2x2 normal equations with
/// clamping and renormalization, exactly as in the full solve.
pub open spec fn spec_pair_det(fgs: Seq<RgbColor>, bg: RgbColor, i: int, j: int) -> int {
    spec_det2(
        dot_diff(fgs[i], fgs[i], bg),
        dot_diff(fgs[i], fgs[j], bg),
        dot_diff(fgs[i], fgs[j], bg),
        dot_diff(fgs[j], fgs[j], bg),
    )
}

pub open spec fn spec_pair_num_i(o: RgbColor, fgs: Seq<RgbColor>, bg: RgbColor, i: int, j: int) -> int {
    dot_diff(fgs[j], fgs[j], bg) * dot_diff(o, fgs[i], bg) - dot_diff(fgs[i], fgs[j], bg)
        * dot_diff(o, fgs[j], bg)
}

pub open spec fn spec_pair_num_j(o: RgbColor, fgs: Seq<RgbColor>, bg: RgbColor, i: int, j: int) -> int {
    dot_diff(fgs[i], fgs[i], bg) * dot_diff(o, fgs[j], bg) - dot_diff(fgs[i], fgs[j], bg)
        * dot_diff(o, fgs[i], bg)
}

pub open spec fn spec_pair_den(o: RgbColor, fgs: Seq<RgbColor>, bg: RgbColor, i: int, j: int) -> int {
    let s = clamp0(spec_pair_num_i(o, fgs, bg, i, j)) + clamp0(spec_pair_num_j(o, fgs, bg, i, j));
    let det = spec_pair_det(fgs, bg, i, j);
    if s > det {
        s
    } else {
        det
    }
}

/// Whether the normalized pair blend reconstructs the observed color within
/// one hundredth of a normalized unit.
pub open spec fn spec_pair_err_below(
    o: RgbColor,
    fgs: Seq<RgbColor>,
    bg: RgbColor,
    i: int,
    j: int,
) -> bool {
    let a = clamp0(spec_pair_num_i(o, fgs, bg, i, j));
    let b = clamp0(spec_pair_num_j(o, fgs, bg, i, j));
    let den = spec_pair_den(o, fgs, bg, i, j);
    let ur = a * chan(fgs[i], bg, 0) + b * chan(fgs[j], bg, 0) - den * chan(o, bg, 0);
    let ug = a * chan(fgs[i], bg, 1) + b * chan(fgs[j], bg, 1) - den * chan(o, bg, 1);
    let ub = a * chan(fgs[i], bg, 2) + b * chan(fgs[j], bg, 2) - den * chan(o, bg, 2);
    (ur * ur + ug * ug + ub * ub) * 10000 < (den * den) * 65025
}

/// One step of the pair pass.
pub open spec fn spec_opt_pair_step(
    best: (Seq<int>, int),
    o: RgbColor,
    fgs: Seq<RgbColor>,
    bg: RgbColor,
    i: int,
    j: int,
) -> (Seq<int>, int) {
    let det = spec_pair_det(fgs, bg, i, j);
    let a = clamp0(spec_pair_num_i(o, fgs, bg, i, j));
    let b = clamp0(spec_pair_num_j(o, fgs, bg, i, j));
    let s = a + b;
    let den = spec_pair_den(o, fgs, bg, i, j);
    if det > 0 && s > 0 && s * best.1 > sum_int(best.0) * den && spec_pair_err_below(
        o,
        fgs,
        bg,
        i,
        j,
    ) {
        (spec_two_hot(fgs.len() as int, i, j, a, b), den)
    } else {
        best
    }
}

pub open spec fn spec_opt_pairs(
    best: (Seq<int>, int),
    o: RgbColor,
    fgs: Seq<RgbColor>,
    bg: RgbColor,
    i: int,
    j: int,
) -> (Seq<int>, int)
    decreases fgs.len() - i, fgs.len() + 2 - j,
{
    if i < 0 || i >= fgs.len() || j < i {
        best
    } else if j >= fgs.len() {
        spec_opt_pairs(best, o, fgs, bg, i + 1, i + 2)
    } else {
        spec_opt_pairs(spec_opt_pair_step(best, o, fgs, bg, i, j), o, fgs, bg, i, j + 1)
    }
}

/// The opacity-optimized result: the plain least-squares solution, improved
/// first by single colors and then — if the alpha found so far is below
/// 0.99 — by pairs of colors.
pub open spec fn spec_optimized(o: RgbColor, fgs: Seq<RgbColor>, bg: RgbColor) -> (Seq<int>, int) {
    let b1 = spec_opt_singles(spec_opt_start(o, fgs, bg), o, fgs, bg, 0);
    if 100 * sum_int(b1.0) < 99 * b1.1 {
        spec_opt_pairs(b1, o, fgs, bg, 0, 1)
    } else {
        b1
    }
}

/// The candidate alpha `n1/d1` is strictly greater than `n2/d2`, decided by
/// cross-multiplication; the first fraction is always the small-denominator
/// newcomer, the second the current best.
fn frac_gt(n1: i128, d1: i128, n2: i128, d2: i128) -> (r: bool)
    requires
        1 <= d1 <= 1000000000000,
        1 <= d2 <= DEN_BOUND,
        0 <= n1 <= d1,
        0 <= n2 <= d2,
    ensures
        r == (n1 * d2 > n2 * d1),
{
    let lhs = mul_i128_bounded(n1, d2, Ghost(1000000000000), Ghost(DEN_BOUND as int));
    let rhs = mul_i128_bounded(n2, d1, Ghost(DEN_BOUND as int), Ghost(1000000000000));
    lhs > rhs
}

/// Unmix over two or more colors, optimized for maximum recovered opacity:
/// beside the full least-squares solution, every single color and every pair
/// of colors is tried, and a candidate with higher alpha wins whenever its
/// reconstruction error stays below one hundredth of a normalized unit.
pub fn unmix_multiple_colors_optimized(
    observed: &RgbColor,
    foreground_colors: &Vec<RgbColor>,
    background: &RgbColor,
) -> (r: UnmixResult)
    requires
        2 <= foreground_colors@.len(),
    ensures
        r.wf(),
        r.weight_nums@.len() == foreground_colors@.len(),
        (ints_of(r.weight_nums@), r.weight_den as int) == spec_optimized(
            *observed,
            foreground_colors@,
            *background,
        ),
{
    let n = foreground_colors.len();
    let o = *observed;
    let bg = *background;
    let ghost fgs = foreground_colors@;
    let mut best: UnmixResult;
    let mut bs: i128;
    match ls_candidate(observed, foreground_colors, background) {
        Some(u) => {
            let s = sum_weight_nums(&u.weight_nums, Ghost(u.weight_den as int));
            if s > 0 {
                proof {
                    assert(ints_of(u.weight_nums@) =~= spec_ls_pre(o, fgs, bg));
                }
                best = u;
                bs = s;
            } else {
                proof {
                    assert(ints_of(u.weight_nums@) =~= spec_ls_pre(o, fgs, bg));
                }
                best = zero_result(n);
                bs = 0;
            }
        },
        None => {
            best = zero_result(n);
            bs = 0;
        },
    }
    let ghost start = spec_opt_start(o, fgs, bg);
    proof {
        assert((ints_of(best.weight_nums@), best.weight_den as int) == start);
    }
    let mut i: usize = 0;
    while i < n
        invariant
            i <= n == fgs.len(),
            2 <= n,
            o == *observed,
            bg == *background,
            fgs == foreground_colors@,
            best.wf(),
            best.weight_nums@.len() == n,
            bs == best.alpha_num(),
            0 <= bs,
            spec_opt_singles(
                (ints_of(best.weight_nums@), best.weight_den as int),
                o,
                fgs,
                bg,
                i as int,
            ) == spec_opt_singles(start, o, fgs, bg, 0),
        decreases n - i,
    {
        let ghost ob = (ints_of(best.weight_nums@), best.weight_den as int);
        proof {
            assert(spec_opt_singles(ob, o, fgs, bg, i as int) == spec_opt_singles(
                spec_opt_single_step(ob, o, fgs, bg, i as int),
                o,
                fgs,
                bg,
                i as int + 1,
            ));
        }
        let f = foreground_colors[i];
        proof {
            lemma_nsq_nonneg(f, bg);
        }
        let nq = dot_diff_exec(&f, &f, background);
        if nq > 0 {
            let d = dot_diff_exec(observed, &f, background);
            let wn: i128 = if d <= 0 {
                0
            } else if d >= nq {
                nq as i128
            } else {
                d as i128
            };
            let better = frac_gt(wn, nq as i128, bs, best.weight_den);
            if better && single_err_below(observed, &f, background, 10, wn, nq) {
                best = unit_result(n, i, wn, nq as i128);
                bs = wn;
                proof {
                    assert(ints_of(best.weight_nums@) =~= Seq::new(
                        fgs.len(),
                        |j: int|
                            if j == i as int {
                                spec_single_weight(o, fgs[i as int], bg).0
                            } else {
                                0
                            },
                    ));
                    assert((ints_of(best.weight_nums@), best.weight_den as int)
                        == spec_opt_single_step(ob, o, fgs, bg, i as int));
                }
            } else {
                proof {
                    assert((ints_of(best.weight_nums@), best.weight_den as int)
                        == spec_opt_single_step(ob, o, fgs, bg, i as int));
                }
            }
        } else {
            proof {
                assert((ints_of(best.weight_nums@), best.weight_den as int)
                    == spec_opt_single_step(ob, o, fgs, bg, i as int));
            }
        }
        i = i + 1;
    }
    let ghost b1 = spec_opt_singles(start, o, fgs, bg, 0);
    proof {
        assert((ints_of(best.weight_nums@), best.weight_den as int) == b1);
    }
    if 100 * bs < 99 * best.weight_den {
        let mut pi: usize = 0;
        while pi < n
            invariant
                pi <= n == fgs.len(),
                2 <= n,
                o == *observed,
                bg == *background,
                fgs == foreground_colors@,
                best.wf(),
                best.weight_nums@.len() == n,
                bs == best.alpha_num(),
                0 <= bs,
                spec_opt_pairs(
                    (ints_of(best.weight_nums@), best.weight_den as int),
                    o,
                    fgs,
                    bg,
                    pi as int,
                    pi as int + 1,
                ) == spec_opt_pairs(b1, o, fgs, bg, 0, 1),
            decreases n - pi,
        {
            let mut pj: usize = pi + 1;
            while pj < n
                invariant
                    pi < n == fgs.len(),
                    pi < pj,
                    2 <= n,
                    o == *observed,
                    bg == *background,
                    fgs == foreground_colors@,
                    best.wf(),
                    best.weight_nums@.len() == n,
                    bs == best.alpha_num(),
                    0 <= bs,
                    spec_opt_pairs(
                        (ints_of(best.weight_nums@), best.weight_den as int),
                        o,
                        fgs,
                        bg,
                        pi as int,
                        pj as int,
                    ) == spec_opt_pairs(b1, o, fgs, bg, 0, 1),
                decreases n - pj,
            {
                let ghost ob = (ints_of(best.weight_nums@), best.weight_den as int);
                proof {
                    assert(spec_opt_pairs(ob, o, fgs, bg, pi as int, pj as int)
                        == spec_opt_pairs(
                        spec_opt_pair_step(ob, o, fgs, bg, pi as int, pj as int),
                        o,
                        fgs,
                        bg,
                        pi as int,
                        pj as int + 1,
                    ));
                }
                let gii = dot_diff_exec(&foreground_colors[pi], &foreground_colors[pi], background);
                let gij = dot_diff_exec(&foreground_colors[pi], &foreground_colors[pj], background);
                let gjj = dot_diff_exec(&foreground_colors[pj], &foreground_colors[pj], background);
                let ci = dot_diff_exec(observed, &foreground_colors[pi], background);
                let cj = dot_diff_exec(observed, &foreground_colors[pj], background);
                let ghost db: int = 195075;
                let det = mul_i128_bounded(gii as i128, gjj as i128, Ghost(db), Ghost(db))
                    - mul_i128_bounded(gij as i128, gij as i128, Ghost(db), Ghost(db));
                let mut updated = false;
                if det > 0 {
                    let ni = mul_i128_bounded(gjj as i128, ci as i128, Ghost(db), Ghost(db))
                        - mul_i128_bounded(gij as i128, cj as i128, Ghost(db), Ghost(db));
                    let nj = mul_i128_bounded(gii as i128, cj as i128, Ghost(db), Ghost(db))
                        - mul_i128_bounded(gij as i128, ci as i128, Ghost(db), Ghost(db));
                    let a: i128 = if ni < 0 { 0 } else { ni };
                    let b: i128 = if nj < 0 { 0 } else { nj };
                    let s = a + b;
                    if s > 0 {
                        let den: i128 = if s > det { s } else { det };
                        let better = frac_gt(s, den, bs, best.weight_den);
                        if better && pair_err_below(observed, &foreground_colors[pi],
                            &foreground_colors[pj], background, a, b, den) {
                            best = two_hot_result(n, pi, pj, a, b, den);
                            bs = s;
                            updated = true;
                            proof {
                                assert(ints_of(best.weight_nums@) =~= spec_two_hot(
                                    n as int,
                                    pi as int,
                                    pj as int,
                                    clamp0(spec_pair_num_i(o, fgs, bg, pi as int, pj as int)),
                                    clamp0(spec_pair_num_j(o, fgs, bg, pi as int, pj as int)),
                                ));
                            }
                        }
                    }
                }
                proof {
                    assert((ints_of(best.weight_nums@), best.weight_den as int)
                        == spec_opt_pair_step(ob, o, fgs, bg, pi as int, pj as int));
                }
                pj = pj + 1;
            }
            proof {
                assert(spec_opt_pairs(
                    (ints_of(best.weight_nums@), best.weight_den as int),
                    o,
                    fgs,
                    bg,
                    pi as int,
                    n as int,
                ) == spec_opt_pairs(
                    (ints_of(best.weight_nums@), best.weight_den as int),
                    o,
                    fgs,
                    bg,
                    pi as int + 1,
                    pi as int + 2,
                ));
            }
            pi = pi + 1;
        }
        proof {
            assert((ints_of(best.weight_nums@), best.weight_den as int) == spec_opt_pairs(
                b1,
                o,
                fgs,
                bg,
                0,
                1,
            ));
        }
    }
    best
}

/// The exact pair error test of the opacity-optimized search.
fn pair_err_below(
    observed: &RgbColor,
    fi: &RgbColor,
    fj: &RgbColor,
    background: &RgbColor,
    a: i128,
    b: i128,
    den: i128,
) -> (r: bool)
    requires
        0 <= a <= 160000000000,
        0 <= b <= 160000000000,
        1 <= den <= 320000000000,
    ensures
        r == ({
            let ur = a * (fi.r - background.r) + b * (fj.r - background.r) - den * (observed.r
                - background.r);
            let ug = a * (fi.g - background.g) + b * (fj.g - background.g) - den * (observed.g
                - background.g);
            let ub = a * (fi.b - background.b) + b * (fj.b - background.b) - den * (observed.b
                - background.b);
            (ur * ur + ug * ug + ub * ub) * 10000 < (den * den) * 65025
        }),
{
    let fdi = channel_diffs(fi, background);
    let fdj = channel_diffs(fj, background);
    let od = channel_diffs(observed, background);
    let ghost ab: int = 160000000000;
    let ghost dbn: int = 320000000000;
    let ur = mul_i128_bounded(a, fdi.0 as i128, Ghost(ab), Ghost(255)) + mul_i128_bounded(
        b,
        fdj.0 as i128,
        Ghost(ab),
        Ghost(255),
    ) - mul_i128_bounded(den, od.0 as i128, Ghost(dbn), Ghost(255));
    let ug = mul_i128_bounded(a, fdi.1 as i128, Ghost(ab), Ghost(255)) + mul_i128_bounded(
        b,
        fdj.1 as i128,
        Ghost(ab),
        Ghost(255),
    ) - mul_i128_bounded(den, od.1 as i128, Ghost(dbn), Ghost(255));
    let ub = mul_i128_bounded(a, fdi.2 as i128, Ghost(ab), Ghost(255)) + mul_i128_bounded(
        b,
        fdj.2 as i128,
        Ghost(ab),
        Ghost(255),
    ) - mul_i128_bounded(den, od.2 as i128, Ghost(dbn), Ghost(255));
    let ghost ub2: int = 163200000000000;
    let s2 = mul_i128_bounded(ur, ur, Ghost(ub2), Ghost(ub2)) + mul_i128_bounded(
        ug,
        ug,
        Ghost(ub2),
        Ghost(ub2),
    ) + mul_i128_bounded(ub, ub, Ghost(ub2), Ghost(ub2));
    let lhs = s2 * 10000;
    let dd = mul_i128_bounded(den, den, Ghost(dbn), Ghost(dbn));
    let rhs = dd * 65025;
    lhs < rhs
}

/// Inner products against a zero difference vector vanish.
proof fn lemma_dot_diff_bg(f: RgbColor, bg: RgbColor)
    ensures
        dot_diff(bg, f, bg) == 0,
{
    assert((bg.r - bg.r) * (f.r - bg.r) + (bg.g - bg.g) * (f.g - bg.g) + (bg.b - bg.b) * (f.b
        - bg.b) == 0) by (nonlinear_arith);
}

/// A 3x3 determinant with a zero column vanishes.
proof fn lemma_det3_zero_col1(b: int, c: int, e: int, f: int, h: int, i: int)
    by (nonlinear_arith)
    ensures
        spec_det3(0, b, c, 0, e, f, 0, h, i) == 0,
{
}

proof fn lemma_det3_zero_col2(a: int, c: int, d: int, f: int, g: int, i: int)
    by (nonlinear_arith)
    ensures
        spec_det3(a, 0, c, d, 0, f, g, 0, i) == 0,
{
}

proof fn lemma_det3_zero_col3(a: int, b: int, d: int, e: int, g: int, h: int)
    by (nonlinear_arith)
    ensures
        spec_det3(a, b, 0, d, e, 0, g, h, 0) == 0,
{
}

/// An exact-background pixel gives every least-squares numerator zero.
proof fn lemma_ls_num_zero(o: RgbColor, fgs: Seq<RgbColor>, bg: RgbColor, j: int)
    requires
        o == bg,
        2 <= fgs.len(),
        0 <= j < fgs.len(),
    ensures
        spec_ls_num(o, fgs, bg, j) == 0,
{
    if fgs.len() == 2 {
        lemma_dot_diff_bg(fgs[0], bg);
        lemma_dot_diff_bg(fgs[1], bg);
        assert(dot_diff(fgs[1], fgs[1], bg) * 0 - dot_diff(fgs[0], fgs[1], bg) * 0 == 0
            && dot_diff(fgs[0], fgs[0], bg) * 0 - dot_diff(fgs[0], fgs[1], bg) * 0 == 0)
            by (nonlinear_arith);
    } else if fgs.len() == 3 {
        lemma_dot_diff_bg(fgs[0], bg);
        lemma_dot_diff_bg(fgs[1], bg);
        lemma_dot_diff_bg(fgs[2], bg);
        let g01 = dot_diff(fgs[0], fgs[1], bg);
        let g02 = dot_diff(fgs[0], fgs[2], bg);
        let g00 = dot_diff(fgs[0], fgs[0], bg);
        let g11 = dot_diff(fgs[1], fgs[1], bg);
        let g12 = dot_diff(fgs[1], fgs[2], bg);
        let g22 = dot_diff(fgs[2], fgs[2], bg);
        lemma_det3_zero_col1(g01, g02, g11, g12, g12, g22);
        lemma_det3_zero_col2(g00, g02, g01, g12, g02, g22);
        lemma_det3_zero_col3(g00, g01, g01, g11, g02, g12);
    } else {
        let m00 = gram_entry(fgs, bg, 0, 0);
        let m01 = gram_entry(fgs, bg, 0, 1);
        let m02 = gram_entry(fgs, bg, 0, 2);
        let m11 = gram_entry(fgs, bg, 1, 1);
        let m12 = gram_entry(fgs, bg, 1, 2);
        let m22 = gram_entry(fgs, bg, 2, 2);
        assert(chan(o, bg, 0) == 0 && chan(o, bg, 1) == 0 && chan(o, bg, 2) == 0);
        lemma_det3_zero_col1(m01, m02, m11, m12, m12, m22);
        lemma_det3_zero_col2(m00, m02, m01, m12, m02, m22);
        lemma_det3_zero_col3(m00, m01, m01, m11, m02, m12);
        assert(spec_gram_y(o, fgs, bg, 0) == 0 && spec_gram_y(o, fgs, bg, 1) == 0 && spec_gram_y(
            o,
            fgs,
            bg,
            2,
        ) == 0);
        assert(chan(fgs[j], bg, 0) * 0 + chan(fgs[j], bg, 1) * 0 + chan(fgs[j], bg, 2) * 0 == 0)
            by (nonlinear_arith);
    }
}

/// An exact-background pixel leaves the single-color weight at zero.
proof fn lemma_single_weight_bg(o: RgbColor, f: RgbColor, bg: RgbColor)
    requires
        o == bg,
    ensures
        spec_single_weight(o, f, bg).0 == 0,
{
    lemma_dot_diff_bg(f, bg);
}

/// The single-color pass never moves off a fully transparent best when the
/// pixel is exactly the background.
proof fn lemma_opt_singles_bg(
    best: (Seq<int>, int),
    o: RgbColor,
    fgs: Seq<RgbColor>,
    bg: RgbColor,
    i: int,
)
    requires
        o == bg,
        sum_int(best.0) == 0,
        1 <= best.1,
    ensures
        spec_opt_singles(best, o, fgs, bg, i) == best,
    decreases fgs.len() - i,
{
    if 0 <= i < fgs.len() {
        lemma_single_weight_bg(o, fgs[i], bg);
        let wn = spec_single_weight(o, fgs[i], bg).0;
        assert(wn * best.1 == 0 && sum_int(best.0) * nsq(fgs[i], bg) == 0) by (nonlinear_arith)
            requires
                wn == 0,
                sum_int(best.0) == 0,
        ;
        assert(spec_opt_single_step(best, o, fgs, bg, i) == best);
        lemma_opt_singles_bg(best, o, fgs, bg, i + 1);
    }
}

/// The pair pass never moves off a fully transparent best when the pixel is
/// exactly the background.
proof fn lemma_opt_pairs_bg(
    best: (Seq<int>, int),
    o: RgbColor,
    fgs: Seq<RgbColor>,
    bg: RgbColor,
    i: int,
    j: int,
)
    requires
        o == bg,
        sum_int(best.0) == 0,
        1 <= best.1,
    ensures
        spec_opt_pairs(best, o, fgs, bg, i, j) == best,
    decreases fgs.len() - i, fgs.len() + 2 - j,
{
    if 0 <= i < fgs.len() && j >= i {
        if j >= fgs.len() {
            lemma_opt_pairs_bg(best, o, fgs, bg, i + 1, i + 2);
        } else {
            lemma_dot_diff_bg(fgs[i], bg);
            lemma_dot_diff_bg(fgs[j], bg);
            assert(dot_diff(fgs[j], fgs[j], bg) * 0 - dot_diff(fgs[i], fgs[j], bg) * 0 == 0
                && dot_diff(fgs[i], fgs[i], bg) * 0 - dot_diff(fgs[i], fgs[j], bg) * 0 == 0)
                by (nonlinear_arith);
            assert(spec_pair_num_i(o, fgs, bg, i, j) == 0 && spec_pair_num_j(o, fgs, bg, i, j)
                == 0);
            assert(spec_opt_pair_step(best, o, fgs, bg, i, j) == best);
            lemma_opt_pairs_bg(best, o, fgs, bg, i, j + 1);
        }
    }
}

/// A pixel that is exactly the background always unmixes to alpha zero,
/// whatever the foreground list: every weight comes out zero.
pub proof fn lemma_unmix_exact_background(o: RgbColor, fgs: Seq<RgbColor>, bg: RgbColor)
    requires
        o == bg,
    ensures
        sum_int(spec_unmix(o, fgs, bg, true).0) == 0,
        spec_unmix(o, fgs, bg, true).1 >= 1,
{
    if fgs.len() == 0 {
        assert(sum_int(Seq::<int>::empty()) == 0);
    } else if fgs.len() == 1 {
        lemma_nsq_nonneg(fgs[0], bg);
        lemma_single_weight_bg(o, fgs[0], bg);
        let wn = spec_single_weight(o, fgs[0], bg).0;
        assert(seq![wn].drop_last() =~= Seq::<int>::empty());
        assert(sum_int(Seq::<int>::empty()) == 0);
        assert(sum_int(seq![wn]) == wn);
    } else {
        let pre = spec_ls_pre(o, fgs, bg);
        assert forall|j: int| 0 <= j < pre.len() implies 0 <= #[trigger] pre[j] <= 0 by {
            lemma_ls_num_zero(o, fgs, bg, j);
        }
        crate::math::lemma_sum_int_le_count(pre, 0);
        assert(fgs.len() as int * 0 == 0) by (nonlinear_arith);
        let zeros = spec_zero_nums(fgs.len() as int);
        assert(forall|j: int| 0 <= j < zeros.len() ==> 0 <= #[trigger] zeros[j] <= 0);
        crate::math::lemma_sum_int_le_count(zeros, 0);
        let start = spec_opt_start(o, fgs, bg);
        assert(start == (zeros, 1int));
        lemma_opt_singles_bg(start, o, fgs, bg, 0);
        let b1 = spec_opt_singles(start, o, fgs, bg, 0);
        lemma_opt_pairs_bg(b1, o, fgs, bg, 0, 1);
    }
}

/// The unmix dispatch: no colors give an empty, fully transparent result;
/// one color uses the exact projection; several use the optimized or the
/// simple least-squares solve.
pub open spec fn spec_unmix(
    o: RgbColor,
    fgs: Seq<RgbColor>,
    bg: RgbColor,
    optimize_opacity: bool,
) -> (Seq<int>, int) {
    if fgs.len() == 0 {
        (Seq::<int>::empty(), 1)
    } else if fgs.len() == 1 {
        (seq![spec_single_weight(o, fgs[0], bg).0], spec_single_weight(o, fgs[0], bg).1)
    } else if optimize_opacity {
        spec_optimized(o, fgs, bg)
    } else {
        (spec_simple_nums(o, fgs, bg), spec_simple_den(o, fgs, bg))
    }
}

/// Unmix an observed color with explicit control of opacity optimization.
pub fn unmix_colors_internal(
    observed: &RgbColor,
    foreground_colors: &Vec<RgbColor>,
    background: &RgbColor,
    optimize_opacity: bool,
) -> (r: UnmixResult)
    ensures
        r.wf(),
        r.weight_nums@.len() == foreground_colors@.len(),
        (ints_of(r.weight_nums@), r.weight_den as int) == spec_unmix(
            *observed,
            foreground_colors@,
            *background,
            optimize_opacity,
        ),
{
    let n = foreground_colors.len();
    if n == 0 {
        let r = UnmixResult { weight_nums: Vec::new(), weight_den: 1 };
        proof {
            assert(ints_of(r.weight_nums@) =~= Seq::<int>::empty());
            assert(sum_int(Seq::<int>::empty()) == 0);
        }
        r
    } else if n == 1 {
        let r = unmix_single_color(observed, &foreground_colors[0], background);
        proof {
            assert(ints_of(r.weight_nums@) =~= seq![
                spec_single_weight(*observed, foreground_colors@[0], *background).0,
            ]);
        }
        r
    } else if optimize_opacity {
        unmix_multiple_colors_optimized(observed, foreground_colors, background)
    } else {
        unmix_multiple_colors_simple(observed, foreground_colors, background)
    }
}

/// Unmix an observed color into foreground components, optimizing for the
/// highest recovered opacity that still reconstructs the pixel accurately.
///
/// The weights are always nonnegative and sum to at most one; the recovered
/// alpha is exactly their sum.
pub fn unmix_colors(
    observed: &RgbColor,
    foreground_colors: &Vec<RgbColor>,
    background: &RgbColor,
) -> (r: UnmixResult)
    ensures
        r.wf(),
        r.weight_nums@.len() == foreground_colors@.len(),
        (ints_of(r.weight_nums@), r.weight_den as int) == spec_unmix(
            *observed,
            foreground_colors@,
            *background,
            true,
        ),
        forall|j: int| 0 <= j < r.weight_nums@.len() ==> 0 <= #[trigger] r.weight_nums@[j],
        r.alpha_num() <= r.weight_den,
{
    unmix_colors_internal(observed, foreground_colors, background, true)
}

} // verus!
