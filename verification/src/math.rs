//! Exact integer arithmetic helpers: bounded wide products, determinants,
//! rounding division and integer square roots.
//!
//! All rationals in this crate are carried as integer numerator/denominator
//! pairs, so these helpers are what every component's arithmetic rests on.

use vstd::prelude::*;

verus! {

/// Round-half-up division for nonnegative `n` and positive `d`.
pub open spec fn spec_round_div(n: int, d: int) -> int {
    (2 * n + d) / (2 * d)
}

/// `r` is the integer square root of `x`.
pub open spec fn is_isqrt(x: int, r: int) -> bool {
    0 <= r && r * r <= x && x < (r + 1) * (r + 1)
}

/// 3x3 determinant.
pub open spec fn spec_det3(
    a: int, b: int, c: int,
    d: int, e: int, f: int,
    g: int, h: int, i: int,
) -> int {
    a * (e * i - f * h) - b * (d * i - f * g) + c * (d * h - e * g)
}

/// 2x2 determinant.
pub open spec fn spec_det2(a: int, b: int, c: int, d: int) -> int {
    a * d - b * c
}

/// Clamp a value to be nonnegative.
pub open spec fn clamp0(x: int) -> int {
    if x < 0 {
        0
    } else {
        x
    }
}

/// The integers a sequence of machine words stands for.
pub open spec fn ints_of(s: Seq<i128>) -> Seq<int> {
    s.map_values(|x: i128| x as int)
}

/// Sum of a sequence of integers.
pub open spec fn sum_int(s: Seq<int>) -> int
    decreases s.len(),
{
    if s.len() == 0 {
        0
    } else {
        sum_int(s.drop_last()) + s.last()
    }
}

pub proof fn lemma_sum_int_take_step(s: Seq<int>, j: int)
    requires
        0 <= j < s.len(),
    ensures
        sum_int(s.take(j + 1)) == sum_int(s.take(j)) + s[j],
{
    assert(s.take(j + 1).drop_last() =~= s.take(j));
    assert(s.take(j + 1).last() == s[j]);
}

pub proof fn lemma_sum_int_nonneg(s: Seq<int>)
    requires
        forall|k: int| 0 <= k < s.len() ==> s[k] >= 0,
    ensures
        sum_int(s) >= 0,
    decreases s.len(),
{
    if s.len() > 0 {
        lemma_sum_int_nonneg(s.drop_last());
    }
}

pub proof fn lemma_sum_int_take_le(s: Seq<int>, j: int)
    requires
        forall|k: int| 0 <= k < s.len() ==> s[k] >= 0,
        0 <= j <= s.len(),
    ensures
        sum_int(s.take(j)) <= sum_int(s),
    decreases s.len() - j,
{
    if j == s.len() {
        assert(s.take(j) =~= s);
    } else {
        lemma_sum_int_take_step(s, j);
        lemma_sum_int_take_le(s, j + 1);
    }
}

pub proof fn lemma_sum_int_le_count(s: Seq<int>, bnd: int)
    requires
        forall|k: int| 0 <= k < s.len() ==> 0 <= #[trigger] s[k] <= bnd,
    ensures
        0 <= sum_int(s) <= s.len() * bnd,
    decreases s.len(),
{
    if s.len() == 0 {
        assert(sum_int(s) == 0);
        assert(s.len() * bnd == 0) by (nonlinear_arith)
            requires
                s.len() == 0,
        ;
    } else {
        lemma_sum_int_le_count(s.drop_last(), bnd);
        assert((s.len() - 1) * bnd + bnd == s.len() * bnd) by (nonlinear_arith);
    }
}

/// Sum of a one-hot sequence.
pub proof fn lemma_sum_int_unit(n: int, i: int, d: int)
    requires
        0 <= n,
    ensures
        sum_int(Seq::new(n as nat, |j: int| if j == i { d } else { 0 })) == if 0 <= i < n {
            d
        } else {
            0
        },
    decreases n,
{
    let s = Seq::new(n as nat, |j: int| if j == i { d } else { 0 });
    if n == 0 {
        assert(sum_int(s) == 0);
    } else {
        lemma_sum_int_unit(n - 1, i, d);
        assert(s.drop_last() =~= Seq::new((n - 1) as nat, |j: int| if j == i { d } else { 0 }));
    }
}

/// Sum of two- and three-element sequences, spelled out.
pub proof fn lemma_sum_int2(a: int, b: int)
    ensures
        sum_int(seq![a, b]) == a + b,
{
    assert(sum_int(Seq::<int>::empty()) == 0);
    assert(seq![a].drop_last() =~= Seq::<int>::empty());
    assert(sum_int(seq![a]) == a);
    assert(seq![a, b].drop_last() =~= seq![a]);
}

pub proof fn lemma_sum_int3(a: int, b: int, c: int)
    ensures
        sum_int(seq![a, b, c]) == a + b + c,
{
    assert(seq![a, b, c].drop_last() =~= seq![a, b]);
    lemma_sum_int2(a, b);
}

/// The product of two `i64` values, widened so it can never overflow.
pub fn wide_mul_i64(a: i64, b: i64) -> (r: i128)
    ensures
        r == a * b,
{
    proof {
        assert((a as int) * (b as int) <= 0x7fffffffffffffffffffffffffffffff
            && -0x80000000000000000000000000000000 <= (a as int) * (b as int))
            by (nonlinear_arith)
            requires
                -0x8000000000000000 <= a <= 0x7fffffffffffffff,
                -0x8000000000000000 <= b <= 0x7fffffffffffffff,
        ;
    }
    (a as i128) * (b as i128)
}

/// Product of two channel-difference-sized values, bounded by `255 * 255`.
pub fn diff_mul(x: i64, y: i64) -> (p: i64)
    requires
        -255 <= x <= 255,
        -255 <= y <= 255,
    ensures
        p == x * y,
        -65025 <= p <= 65025,
{
    proof {
        assert(-65025 <= x * y <= 65025) by (nonlinear_arith)
            requires
                -255 <= x <= 255,
                -255 <= y <= 255,
        ;
    }
    x * y
}

/// The product of two bounded `i128` values; the ghost bounds make the
/// absence of overflow a stated fact at every call site.
pub fn mul_i128_bounded(a: i128, b: i128, Ghost(ab): Ghost<int>, Ghost(bb): Ghost<int>) -> (r:
    i128)
    requires
        0 <= ab,
        0 <= bb,
        -ab <= a <= ab,
        -bb <= b <= bb,
        ab * bb <= 0x7fffffffffffffffffffffffffffffff,
    ensures
        r == a * b,
        -(ab * bb) <= r <= ab * bb,
{
    proof {
        assert(-(ab * bb) <= (a as int) * (b as int) <= ab * bb) by (nonlinear_arith)
            requires
                0 <= ab,
                0 <= bb,
                -ab <= a <= ab,
                -bb <= b <= bb,
        ;
    }
    a * b
}

/// 3x3 determinant over machine integers, row-major arguments, with one
/// ghost bound per column making the absence of overflow a stated fact.
#[verifier::rlimit(20)]
pub fn det3_i64(
    a: i64, b: i64, c: i64,
    d: i64, e: i64, f: i64,
    g: i64, h: i64, i: i64,
    Ghost(b1): Ghost<int>, Ghost(b2): Ghost<int>, Ghost(b3): Ghost<int>,
) -> (r: i128)
    requires
        0 <= b1 <= 2500000,
        0 <= b2 <= 2500000,
        0 <= b3 <= 2500000,
        -b1 <= a <= b1 && -b1 <= d <= b1 && -b1 <= g <= b1,
        -b2 <= b <= b2 && -b2 <= e <= b2 && -b2 <= h <= b2,
        -b3 <= c <= b3 && -b3 <= f <= b3 && -b3 <= i <= b3,
    ensures
        r == spec_det3(
            a as int, b as int, c as int,
            d as int, e as int, f as int,
            g as int, h as int, i as int,
        ),
        -(6 * b1 * b2 * b3) <= r <= 6 * b1 * b2 * b3,
{
    proof {
        assert(-(b2 * b3) <= (e as int) * (i as int) <= b2 * b3) by (nonlinear_arith)
            requires
                0 <= b2 && 0 <= b3 && -b2 <= e <= b2 && -b3 <= i <= b3,
        ;
        assert(-(b2 * b3) <= (f as int) * (h as int) <= b2 * b3) by (nonlinear_arith)
            requires
                0 <= b2 && 0 <= b3 && -b2 <= h <= b2 && -b3 <= f <= b3,
        ;
        assert(-(b1 * b3) <= (d as int) * (i as int) <= b1 * b3) by (nonlinear_arith)
            requires
                0 <= b1 && 0 <= b3 && -b1 <= d <= b1 && -b3 <= i <= b3,
        ;
        assert(-(b1 * b3) <= (f as int) * (g as int) <= b1 * b3) by (nonlinear_arith)
            requires
                0 <= b1 && 0 <= b3 && -b1 <= g <= b1 && -b3 <= f <= b3,
        ;
        assert(-(b1 * b2) <= (d as int) * (h as int) <= b1 * b2) by (nonlinear_arith)
            requires
                0 <= b1 && 0 <= b2 && -b1 <= d <= b1 && -b2 <= h <= b2,
        ;
        assert(-(b1 * b2) <= (e as int) * (g as int) <= b1 * b2) by (nonlinear_arith)
            requires
                0 <= b1 && 0 <= b2 && -b1 <= g <= b1 && -b2 <= e <= b2,
        ;
        assert(b2 * b3 <= 6250000000000 && b1 * b3 <= 6250000000000 && b1 * b2
            <= 6250000000000) by (nonlinear_arith)
            requires
                0 <= b1 <= 2500000 && 0 <= b2 <= 2500000 && 0 <= b3 <= 2500000,
        ;
        assert(b1 * (2 * b2 * b3) <= 0x7fffffffffffffffffffffffffffffff && b2 * (2 * b1 * b3)
            <= 0x7fffffffffffffffffffffffffffffff && b3 * (2 * b1 * b2)
            <= 0x7fffffffffffffffffffffffffffffff && b1 * (2 * b2 * b3) == b2 * (2 * b1 * b3)
            && b1 * (2 * b2 * b3) == b3 * (2 * b1 * b2)) by (nonlinear_arith)
            requires
                0 <= b1 <= 2500000,
                0 <= b2 <= 2500000,
                0 <= b3 <= 2500000,
        ;
        assert(2 * b2 * b3 == b2 * b3 + b2 * b3 && 2 * b1 * b3 == b1 * b3 + b1 * b3 && 2 * b1 * b2
            == b1 * b2 + b1 * b2) by (nonlinear_arith);
    }
    let m1 = wide_mul_i64(e, i) - wide_mul_i64(f, h);
    let m2 = wide_mul_i64(d, i) - wide_mul_i64(f, g);
    let m3 = wide_mul_i64(d, h) - wide_mul_i64(e, g);
    let t1 = mul_i128_bounded(a as i128, m1, Ghost(b1), Ghost(2 * b2 * b3));
    let t2 = mul_i128_bounded(b as i128, m2, Ghost(b2), Ghost(2 * b1 * b3));
    let t3 = mul_i128_bounded(c as i128, m3, Ghost(b3), Ghost(2 * b1 * b2));
    proof {
        assert(b1 * (2 * b2 * b3) == 2 * (b1 * b2 * b3) && b2 * (2 * b1 * b3) == 2 * (b1 * b2
            * b3) && b3 * (2 * b1 * b2) == 2 * (b1 * b2 * b3)) by (nonlinear_arith);
        assert(0 <= b1 * b2 * b3 <= 15625000000000000000) by (nonlinear_arith)
            requires
                0 <= b1 <= 2500000 && 0 <= b2 <= 2500000 && 0 <= b3 <= 2500000,
        ;
        assert(6 * b1 * b2 * b3 == 6 * (b1 * b2 * b3)) by (nonlinear_arith);
    }
    t1 - t2 + t3
}

/// Floor division on nonnegative wide integers.
pub fn floor_div_u128(n: u128, d: u128) -> (r: u128)
    requires
        1 <= d,
    ensures
        r == n as int / d as int,
{
    n / d
}

/// Round-half-up division on nonnegative wide integers.
pub fn round_div_u128(n: u128, d: u128) -> (r: u128)
    requires
        1 <= d,
        d <= 0x3fffffffffffffffffffffffffffffff,
        2 * n + d <= 0xffffffffffffffffffffffffffffffff,
    ensures
        r == spec_round_div(n as int, d as int),
        n <= 255 * d ==> r <= 255,
{
    let r = (2 * n + d) / (2 * d);
    proof {
        if n <= 255 * d {
            assert((2 * (n as int) + d) / (2 * (d as int)) <= 255) by (nonlinear_arith)
                requires
                    1 <= d,
                    0 <= n <= 255 * (d as int),
            ;
        }
    }
    r
}

/// The integer square root as a spec-level function: the unique `r` with
/// `r * r <= x < (r + 1) * (r + 1)`.
pub open spec fn spec_isqrt(x: int) -> int {
    choose|r: int| is_isqrt(x, r)
}

/// Integer square roots are unique, so an executable square root computes
/// `spec_isqrt` exactly.
pub proof fn lemma_isqrt_unique(x: int, r: int)
    requires
        is_isqrt(x, r),
    ensures
        r == spec_isqrt(x),
{
    assert(is_isqrt(x, spec_isqrt(x)));
    let r2 = spec_isqrt(x);
    assert(r == r2) by (nonlinear_arith)
        requires
            0 <= r && r * r <= x && x < (r + 1) * (r + 1),
            0 <= r2 && r2 * r2 <= x && x < (r2 + 1) * (r2 + 1),
    ;
}

/// Integer square root of a `u64`, by bisection.
pub fn isqrt_u64(x: u64) -> (r: u64)
    ensures
        is_isqrt(x as int, r as int),
{
    let mut lo: u128 = 0;
    let mut hi: u128 = 0x100000000;
    proof {
        assert(0x100000000int * 0x100000000int > x) by (nonlinear_arith)
            requires
                x <= 0xffffffffffffffffu64,
        ;
    }
    while lo + 1 < hi
        invariant
            0 <= lo < hi <= 0x100000000,
            lo * lo <= x,
            hi * hi > x,
        decreases hi - lo,
    {
        let mid = lo + (hi - lo) / 2;
        proof {
            assert(lo < mid < hi);
            assert(mid * mid <= 0x100000000u128 * 0x100000000u128) by (nonlinear_arith)
                requires
                    0 <= mid <= 0x100000000u128,
            ;
        }
        if mid * mid <= x as u128 {
            lo = mid;
        } else {
            hi = mid;
        }
    }
    proof {
        assert(lo + 1 == hi);
    }
    lo as u64
}

/// Integer square root of a `u128`, by bisection.
pub fn isqrt_u128(x: u128) -> (r: u128)
    ensures
        is_isqrt(x as int, r as int),
        r == spec_isqrt(x as int),
{
    let mut lo: u128 = 0;
    let mut hi: u128 = 0x10000000000000000;
    proof {
        assert(0x10000000000000000int * 0x10000000000000000int > x) by (nonlinear_arith)
            requires
                x <= 0xffffffffffffffffffffffffffffffffu128,
        ;
    }
    while lo + 1 < hi
        invariant
            0 <= lo < hi <= 0x10000000000000000,
            lo * lo <= x,
            hi * hi > x,
        decreases hi - lo,
    {
        let mid = lo + (hi - lo) / 2;
        proof {
            assert(lo < mid < hi);
            assert(mid * mid <= 0xffffffffffffffffu128 * 0xffffffffffffffffu128)
                by (nonlinear_arith)
                requires
                    0 <= mid <= 0xffffffffffffffffu128,
            ;
        }
        let sq = mid * mid;
        if sq <= x {
            lo = mid;
        } else {
            hi = mid;
        }
    }
    proof {
        lemma_isqrt_unique(x as int, lo as int);
    }
    lo
}

} // verus!
