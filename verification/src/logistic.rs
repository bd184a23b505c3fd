//! Fixed-point building blocks of the suspicion ("phi") computation.
//!
//! The detector maps a normalized deviation `y` (thousandths) to
//! `v = y * (1.5976 + 0.070566 * y^2)` (thousandths) and then to
//! `phi = log10(1 + exp(s))` where `s` is `v` signed by whether the elapsed
//! silence exceeds the mean interval.  Everything is integer arithmetic:
//! `phi` is produced in nano units from
//! `phi(s) = log10(e) * max(s, 0) + c(|s|)`, where `c(v)` approximates
//! `log10(1 + exp(-v))` by linear interpolation between precomputed
//! breakpoints.  The pieces below come with monotonicity and Lipschitz
//! lemmas, from which the detector proves that suspicion never decreases
//! while a peer stays silent.

use vstd::arithmetic::div_mod::{
    lemma_div_is_ordered, lemma_div_pos_is_pos, lemma_fundamental_div_mod,
    lemma_mod_division_less_than_divisor,
};
use vstd::prelude::*;

verus! {

/// log10(e) in nano-phi per thousandth of the exponent.
pub const LOG10_E_NANO: u64 = 434294;

/// Cap on the normalized deviation `y` (thousandths); beyond it the
/// suspicion level saturates.
pub const Y_CAP_MILLI: u64 = 100_000;

/// Largest value `v_milli_of` can produce under the `y` cap.
pub const V_CAP_MILLI: u64 = 70_725_760;

/// `c(0)` in nano-phi: `log10(2)`.
pub const C_NANO_AT_ZERO: u64 = 301_029_996;

/// Steepest descent of `c` in nano-phi per thousandth.
pub const C_SLOPE_MAX: u64 = 203_611;

/// `r` is the integer square root of `x`.
pub open spec fn is_isqrt(x: int, r: int) -> bool {
    0 <= r && r * r <= x < (r + 1) * (r + 1)
}

/// The integer square root as a spec-level function.
pub open spec fn spec_isqrt(x: int) -> int {
    choose|r: int| is_isqrt(x, r)
}

pub proof fn lemma_isqrt_exists(x: int)
    requires
        x >= 0,
    ensures
        is_isqrt(x, spec_isqrt(x)),
    decreases x,
{
    if x == 0 {
        assert(is_isqrt(0, 0));
    } else {
        lemma_isqrt_exists(x - 1);
        let r = spec_isqrt(x - 1);
        if (r + 1) * (r + 1) <= x {
            assert((r + 2) * (r + 2) > x) by (nonlinear_arith)
                requires
                    r >= 0,
                    x - 1 < (r + 1) * (r + 1),
            ;
            assert(is_isqrt(x, r + 1));
        } else {
            assert(is_isqrt(x, r));
        }
    }
}

pub proof fn lemma_isqrt_unique(x: int, r: int)
    requires
        is_isqrt(x, r),
    ensures
        spec_isqrt(x) == r,
{
    lemma_isqrt_exists(x);
    let q = spec_isqrt(x);
    assert(q == r) by (nonlinear_arith)
        requires
            0 <= r,
            0 <= q,
            r * r <= x < (r + 1) * (r + 1),
            q * q <= x < (q + 1) * (q + 1),
    ;
}

/// Integer square root by bisection.
pub fn isqrt_u128(x: u128) -> (r: u128)
    ensures
        is_isqrt(x as int, r as int),
        r == spec_isqrt(x as int),
{
    let mut lo: u128 = 0;
    let mut hi: u128 = 0x1_0000_0000_0000_0000;
    proof {
        assert((hi as int) * (hi as int) > x as int) by (nonlinear_arith)
            requires
                hi as int == 0x1_0000_0000_0000_0000,
                (x as int) < 0x1_0000_0000_0000_0000 * 0x1_0000_0000_0000_0000,
        ;
    }
    while lo + 1 < hi
        invariant
            lo < hi,
            hi <= 0x1_0000_0000_0000_0000,
            (lo as int) * (lo as int) <= x as int,
            (hi as int) * (hi as int) > x as int,
        decreases hi - lo,
    {
        let mid = lo + (hi - lo) / 2;
        proof {
            assert(lo < mid < hi);
            assert((mid as int) * (mid as int) <= (0xffff_ffff_ffff_ffffu64 as int)
                * (0xffff_ffff_ffff_ffffu64 as int)) by (nonlinear_arith)
                requires
                    0 <= mid as int <= 0xffff_ffff_ffff_ffffu64 as int,
            ;
        }
        if mid * mid <= x {
            lo = mid;
        } else {
            hi = mid;
        }
    }
    proof {
        lemma_isqrt_unique(x as int, lo as int);
    }
    lo
}

/// Linear interpolation between `(v0, c0)` and `(v1, c1)`, rounding the
/// descent down.
pub open spec fn seg(v: int, v0: int, c0: int, v1: int, c1: int) -> int {
    c0 - ((c0 - c1) * (v - v0)) / (v1 - v0)
}

pub proof fn lemma_seg_at_right(v0: int, c0: int, v1: int, c1: int)
    requires
        v0 < v1,
        c1 <= c0,
    ensures
        seg(v1, v0, c0, v1, c1) == c1,
{
    let d = c0 - c1;
    let w = v1 - v0;
    assert((d * w) / w == d) by (nonlinear_arith)
        requires
            w > 0,
            d >= 0,
    ;
}

pub proof fn lemma_seg_bounds(v: int, v0: int, c0: int, v1: int, c1: int)
    requires
        v0 <= v <= v1,
        v0 < v1,
        0 <= c1 <= c0,
    ensures
        c1 <= seg(v, v0, c0, v1, c1) <= c0,
{
    let d = c0 - c1;
    let w = v1 - v0;
    let num = d * (v - v0);
    assert(0 <= num <= d * w) by (nonlinear_arith)
        requires
            num == d * (v - v0),
            0 <= d,
            0 <= v - v0 <= w,
    ;
    lemma_div_is_ordered(0, num, w);
    lemma_div_is_ordered(num, d * w, w);
    assert((d * w) / w == d) by (nonlinear_arith)
        requires
            w > 0,
            d >= 0,
    ;
    assert(0int / w == 0) by (nonlinear_arith)
        requires
            w > 0,
    ;
}

/// On one segment the interpolation is nonincreasing, and it descends at
/// most `C_SLOPE_MAX` nano-phi per thousandth.
pub proof fn lemma_seg_mono_lip(v: int, w: int, v0: int, c0: int, v1: int, c1: int)
    requires
        v0 <= v <= w <= v1,
        v0 < v1,
        0 <= c1 <= c0,
        c0 - c1 <= C_SLOPE_MAX * (v1 - v0),
    ensures
        seg(w, v0, c0, v1, c1) <= seg(v, v0, c0, v1, c1),
        seg(v, v0, c0, v1, c1) - seg(w, v0, c0, v1, c1) <= C_SLOPE_MAX * (w - v),
{
    let d = c0 - c1;
    let dv = v1 - v0;
    let a = d * (w - v0);
    let b = d * (v - v0);
    assert(b <= a) by (nonlinear_arith)
        requires
            a == d * (w - v0),
            b == d * (v - v0),
            d >= 0,
            v0 <= v <= w,
    ;
    lemma_div_is_ordered(b, a, dv);
    if v < w {
        let x = a / dv - b / dv;
        lemma_fundamental_div_mod(a, dv);
        lemma_fundamental_div_mod(b, dv);
        lemma_mod_division_less_than_divisor(a, dv);
        lemma_mod_division_less_than_divisor(b, dv);
        assert(x * dv == a - a % dv - b + b % dv) by (nonlinear_arith)
            requires
                a == dv * (a / dv) + a % dv,
                b == dv * (b / dv) + b % dv,
                x == a / dv - b / dv,
        ;
        assert(x * dv <= a - b + dv - 1);
        assert(a - b == d * (w - v)) by (nonlinear_arith)
            requires
                a == d * (w - v0),
                b == d * (v - v0),
        ;
        assert(a - b <= C_SLOPE_MAX * dv * (w - v)) by (nonlinear_arith)
            requires
                a - b == d * (w - v),
                d <= C_SLOPE_MAX * dv,
                w - v >= 0,
        ;
        assert(x * dv < dv * (C_SLOPE_MAX * (w - v) + 1)) by (nonlinear_arith)
            requires
                x * dv <= C_SLOPE_MAX * dv * (w - v) + dv - 1,
        ;
        assert(x < C_SLOPE_MAX * (w - v) + 1) by (nonlinear_arith)
            requires
                x * dv < dv * (C_SLOPE_MAX * (w - v) + 1),
                dv > 0,
        ;
    }
}

/// Approximation of `log10(1 + exp(-v/1000))` in nano-phi, for `v >= 0`.
pub open spec fn c_nano(v: int) -> int {
    if v < 250 {
        seg(v, 0, 301029996, 250, 250127312)
    } else if v < 500 {
        seg(v, 250, 250127312, 500, 205889018)
    } else if v < 750 {
        seg(v, 500, 205889018, 750, 168015943)
    } else if v < 1000 {
        seg(v, 750, 168015943, 1000, 136047822)
    } else if v < 1500 {
        seg(v, 1000, 136047822, 1500, 87472675)
    } else if v < 2000 {
        seg(v, 1500, 87472675, 2000, 55124135)
    } else if v < 2500 {
        seg(v, 2000, 55124135, 2500, 34261376)
    } else if v < 3000 {
        seg(v, 2500, 34261376, 3000, 21101219)
    } else if v < 4000 {
        seg(v, 3000, 21101219, 4000, 7882414)
    } else if v < 5000 {
        seg(v, 4000, 7882414, 5000, 2916439)
    } else if v < 6000 {
        seg(v, 5000, 2916439, 6000, 1075176)
    } else if v < 8000 {
        seg(v, 6000, 1075176, 8000, 145665)
    } else if v < 10000 {
        seg(v, 8000, 145665, 10000, 19716)
    } else if v < 14000 {
        seg(v, 10000, 19716, 14000, 0)
    } else {
        0
    }
}

pub proof fn lemma_c_nano_range(v: int)
    requires
        v >= 0,
    ensures
        0 <= c_nano(v) <= C_NANO_AT_ZERO,
{
    if v < 250 {
        lemma_seg_bounds(v, 0, 301029996, 250, 250127312);
    } else if v < 500 {
        lemma_seg_bounds(v, 250, 250127312, 500, 205889018);
    } else if v < 750 {
        lemma_seg_bounds(v, 500, 205889018, 750, 168015943);
    } else if v < 1000 {
        lemma_seg_bounds(v, 750, 168015943, 1000, 136047822);
    } else if v < 1500 {
        lemma_seg_bounds(v, 1000, 136047822, 1500, 87472675);
    } else if v < 2000 {
        lemma_seg_bounds(v, 1500, 87472675, 2000, 55124135);
    } else if v < 2500 {
        lemma_seg_bounds(v, 2000, 55124135, 2500, 34261376);
    } else if v < 3000 {
        lemma_seg_bounds(v, 2500, 34261376, 3000, 21101219);
    } else if v < 4000 {
        lemma_seg_bounds(v, 3000, 21101219, 4000, 7882414);
    } else if v < 5000 {
        lemma_seg_bounds(v, 4000, 7882414, 5000, 2916439);
    } else if v < 6000 {
        lemma_seg_bounds(v, 5000, 2916439, 6000, 1075176);
    } else if v < 8000 {
        lemma_seg_bounds(v, 6000, 1075176, 8000, 145665);
    } else if v < 10000 {
        lemma_seg_bounds(v, 8000, 145665, 10000, 19716);
    } else if v < 14000 {
        lemma_seg_bounds(v, 10000, 19716, 14000, 0);
    }
}

/// `c` is nonincreasing and descends at most `C_SLOPE_MAX` nano-phi per
/// thousandth.
pub proof fn lemma_c_nano_mono(v: int, w: int)
    requires
        0 <= v <= w,
    ensures
        c_nano(w) <= c_nano(v),
        c_nano(v) - c_nano(w) <= C_SLOPE_MAX * (w - v),
    decreases w - v,
{
    if v == w {
    } else if v < 250 {
        if w < 250 {
            lemma_seg_mono_lip(v, w, 0, 301029996, 250, 250127312);
        } else {
            lemma_seg_mono_lip(v, 250, 0, 301029996, 250, 250127312);
            lemma_seg_at_right(0, 301029996, 250, 250127312);
            assert(c_nano(250) == 250127312) by {
                lemma_seg_at_right(0, 301029996, 250, 250127312);
                assert(seg(250, 250, 250127312, 500, 205889018) == 250127312) by {
                    assert((250127312 - 205889018) * (250 - 250) == 0);
                    assert(0int / 250 == 0) by (nonlinear_arith);
                }
            }
            lemma_c_nano_mono(250, w);
        }
    } else if v < 500 {
        if w < 500 {
            lemma_seg_mono_lip(v, w, 250, 250127312, 500, 205889018);
        } else {
            lemma_seg_mono_lip(v, 500, 250, 250127312, 500, 205889018);
            lemma_seg_at_right(250, 250127312, 500, 205889018);
            assert(c_nano(500) == 205889018) by {
                assert((205889018 - 168015943) * (500 - 500) == 0);
                assert(0int / 250 == 0) by (nonlinear_arith);
            }
            lemma_c_nano_mono(500, w);
        }
    } else if v < 750 {
        if w < 750 {
            lemma_seg_mono_lip(v, w, 500, 205889018, 750, 168015943);
        } else {
            lemma_seg_mono_lip(v, 750, 500, 205889018, 750, 168015943);
            lemma_seg_at_right(500, 205889018, 750, 168015943);
            assert(c_nano(750) == 168015943) by {
                assert((168015943 - 136047822) * (750 - 750) == 0);
                assert(0int / 250 == 0) by (nonlinear_arith);
            }
            lemma_c_nano_mono(750, w);
        }
    } else if v < 1000 {
        if w < 1000 {
            lemma_seg_mono_lip(v, w, 750, 168015943, 1000, 136047822);
        } else {
            lemma_seg_mono_lip(v, 1000, 750, 168015943, 1000, 136047822);
            lemma_seg_at_right(750, 168015943, 1000, 136047822);
            assert(c_nano(1000) == 136047822) by {
                assert((136047822 - 87472675) * (1000 - 1000) == 0);
                assert(0int / 500 == 0) by (nonlinear_arith);
            }
            lemma_c_nano_mono(1000, w);
        }
    } else if v < 1500 {
        if w < 1500 {
            lemma_seg_mono_lip(v, w, 1000, 136047822, 1500, 87472675);
        } else {
            lemma_seg_mono_lip(v, 1500, 1000, 136047822, 1500, 87472675);
            lemma_seg_at_right(1000, 136047822, 1500, 87472675);
            assert(c_nano(1500) == 87472675) by {
                assert((87472675 - 55124135) * (1500 - 1500) == 0);
                assert(0int / 500 == 0) by (nonlinear_arith);
            }
            lemma_c_nano_mono(1500, w);
        }
    } else if v < 2000 {
        if w < 2000 {
            lemma_seg_mono_lip(v, w, 1500, 87472675, 2000, 55124135);
        } else {
            lemma_seg_mono_lip(v, 2000, 1500, 87472675, 2000, 55124135);
            lemma_seg_at_right(1500, 87472675, 2000, 55124135);
            assert(c_nano(2000) == 55124135) by {
                assert((55124135 - 34261376) * (2000 - 2000) == 0);
                assert(0int / 500 == 0) by (nonlinear_arith);
            }
            lemma_c_nano_mono(2000, w);
        }
    } else if v < 2500 {
        if w < 2500 {
            lemma_seg_mono_lip(v, w, 2000, 55124135, 2500, 34261376);
        } else {
            lemma_seg_mono_lip(v, 2500, 2000, 55124135, 2500, 34261376);
            lemma_seg_at_right(2000, 55124135, 2500, 34261376);
            assert(c_nano(2500) == 34261376) by {
                assert((34261376 - 21101219) * (2500 - 2500) == 0);
                assert(0int / 500 == 0) by (nonlinear_arith);
            }
            lemma_c_nano_mono(2500, w);
        }
    } else if v < 3000 {
        if w < 3000 {
            lemma_seg_mono_lip(v, w, 2500, 34261376, 3000, 21101219);
        } else {
            lemma_seg_mono_lip(v, 3000, 2500, 34261376, 3000, 21101219);
            lemma_seg_at_right(2500, 34261376, 3000, 21101219);
            assert(c_nano(3000) == 21101219) by {
                assert((21101219 - 7882414) * (3000 - 3000) == 0);
                assert(0int / 1000 == 0) by (nonlinear_arith);
            }
            lemma_c_nano_mono(3000, w);
        }
    } else if v < 4000 {
        if w < 4000 {
            lemma_seg_mono_lip(v, w, 3000, 21101219, 4000, 7882414);
        } else {
            lemma_seg_mono_lip(v, 4000, 3000, 21101219, 4000, 7882414);
            lemma_seg_at_right(3000, 21101219, 4000, 7882414);
            assert(c_nano(4000) == 7882414) by {
                assert((7882414 - 2916439) * (4000 - 4000) == 0);
                assert(0int / 1000 == 0) by (nonlinear_arith);
            }
            lemma_c_nano_mono(4000, w);
        }
    } else if v < 5000 {
        if w < 5000 {
            lemma_seg_mono_lip(v, w, 4000, 7882414, 5000, 2916439);
        } else {
            lemma_seg_mono_lip(v, 5000, 4000, 7882414, 5000, 2916439);
            lemma_seg_at_right(4000, 7882414, 5000, 2916439);
            assert(c_nano(5000) == 2916439) by {
                assert((2916439 - 1075176) * (5000 - 5000) == 0);
                assert(0int / 1000 == 0) by (nonlinear_arith);
            }
            lemma_c_nano_mono(5000, w);
        }
    } else if v < 6000 {
        if w < 6000 {
            lemma_seg_mono_lip(v, w, 5000, 2916439, 6000, 1075176);
        } else {
            lemma_seg_mono_lip(v, 6000, 5000, 2916439, 6000, 1075176);
            lemma_seg_at_right(5000, 2916439, 6000, 1075176);
            assert(c_nano(6000) == 1075176) by {
                assert((1075176 - 145665) * (6000 - 6000) == 0);
                assert(0int / 2000 == 0) by (nonlinear_arith);
            }
            lemma_c_nano_mono(6000, w);
        }
    } else if v < 8000 {
        if w < 8000 {
            lemma_seg_mono_lip(v, w, 6000, 1075176, 8000, 145665);
        } else {
            lemma_seg_mono_lip(v, 8000, 6000, 1075176, 8000, 145665);
            lemma_seg_at_right(6000, 1075176, 8000, 145665);
            assert(c_nano(8000) == 145665) by {
                assert((145665 - 19716) * (8000 - 8000) == 0);
                assert(0int / 2000 == 0) by (nonlinear_arith);
            }
            lemma_c_nano_mono(8000, w);
        }
    } else if v < 10000 {
        if w < 10000 {
            lemma_seg_mono_lip(v, w, 8000, 145665, 10000, 19716);
        } else {
            lemma_seg_mono_lip(v, 10000, 8000, 145665, 10000, 19716);
            lemma_seg_at_right(8000, 145665, 10000, 19716);
            assert(c_nano(10000) == 19716) by {
                assert((19716 - 0) * (10000 - 10000) == 0);
                assert(0int / 4000 == 0) by (nonlinear_arith);
            }
            lemma_c_nano_mono(10000, w);
        }
    } else if v < 14000 {
        if w < 14000 {
            lemma_seg_mono_lip(v, w, 10000, 19716, 14000, 0);
        } else {
            lemma_seg_mono_lip(v, 14000, 10000, 19716, 14000, 0);
            lemma_seg_at_right(10000, 19716, 14000, 0);
            lemma_c_nano_range(w);
        }
    } else {
    }
}

/// Interpolation on one segment, executable form.
fn seg_exec(v: u64, v0: u64, c0: u64, v1: u64, c1: u64) -> (r: u64)
    requires
        v0 <= v <= v1,
        v0 < v1,
        c1 <= c0,
        c0 <= 0x2000_0000,
        v1 <= 0x10000,
    ensures
        r as int == seg(v as int, v0 as int, c0 as int, v1 as int, c1 as int),
{
    proof {
        assert((c0 as int - c1 as int) * (v as int - v0 as int) <= 0x2000_0000int * 0x10000)
            by (nonlinear_arith)
            requires
                0 <= c0 as int - c1 as int <= 0x2000_0000,
                0 <= v as int - v0 as int <= 0x10000,
        ;
    }
    let num = (c0 - c1) * (v - v0);
    let q = num / (v1 - v0);
    proof {
        let d = c0 as int - c1 as int;
        let dv = v1 as int - v0 as int;
        assert(num as int <= d * dv) by (nonlinear_arith)
            requires
                num as int == d * (v as int - v0 as int),
                0 <= d,
                0 <= v as int - v0 as int <= dv,
        ;
        lemma_div_is_ordered(num as int, d * dv, dv);
        assert((d * dv) / dv == d) by (nonlinear_arith)
            requires
                dv > 0,
                d >= 0,
        ;
        lemma_div_pos_is_pos(num as int, dv);
    }
    c0 - q
}

/// Approximation of `log10(1 + exp(-v/1000))` in nano-phi, executable form.
pub fn c_nano_exec(v: u64) -> (c: u64)
    ensures
        c as int == c_nano(v as int),
        c <= C_NANO_AT_ZERO,
{
    proof {
        lemma_c_nano_range(v as int);
    }
    if v < 250 {
        seg_exec(v, 0, 301029996, 250, 250127312)
    } else if v < 500 {
        seg_exec(v, 250, 250127312, 500, 205889018)
    } else if v < 750 {
        seg_exec(v, 500, 205889018, 750, 168015943)
    } else if v < 1000 {
        seg_exec(v, 750, 168015943, 1000, 136047822)
    } else if v < 1500 {
        seg_exec(v, 1000, 136047822, 1500, 87472675)
    } else if v < 2000 {
        seg_exec(v, 1500, 87472675, 2000, 55124135)
    } else if v < 2500 {
        seg_exec(v, 2000, 55124135, 2500, 34261376)
    } else if v < 3000 {
        seg_exec(v, 2500, 34261376, 3000, 21101219)
    } else if v < 4000 {
        seg_exec(v, 3000, 21101219, 4000, 7882414)
    } else if v < 5000 {
        seg_exec(v, 4000, 7882414, 5000, 2916439)
    } else if v < 6000 {
        seg_exec(v, 5000, 2916439, 6000, 1075176)
    } else if v < 8000 {
        seg_exec(v, 6000, 1075176, 8000, 145665)
    } else if v < 10000 {
        seg_exec(v, 8000, 145665, 10000, 19716)
    } else if v < 14000 {
        seg_exec(v, 10000, 19716, 14000, 0)
    } else {
        0
    }
}

/// The suspicion level in nano-phi as a function of the magnitude `v` of
/// the mapped deviation and of its sign (`over` when the elapsed silence
/// exceeds the mean interval).
pub open spec fn phi_nano_of(over: bool, v: int) -> int {
    if over {
        LOG10_E_NANO * v + c_nano(v)
    } else {
        c_nano(v)
    }
}

/// Order on the signed deviation: `(o1, v1)` stands for `v1` when `o1`
/// and for `-v1` otherwise.
pub open spec fn signed_le(o1: bool, v1: int, o2: bool, v2: int) -> bool {
    (if o1 { v1 } else { -v1 }) <= (if o2 { v2 } else { -v2 })
}

/// Suspicion is monotone in the signed deviation.
pub proof fn lemma_phi_nano_mono(o1: bool, v1: int, o2: bool, v2: int)
    requires
        v1 >= 0,
        v2 >= 0,
        signed_le(o1, v1, o2, v2),
    ensures
        phi_nano_of(o1, v1) <= phi_nano_of(o2, v2),
{
    if !o1 && !o2 {
        lemma_c_nano_mono(v2, v1);
    } else if !o1 && o2 {
        lemma_c_nano_mono(0, v1);
        lemma_c_nano_mono(0, v2);
        assert(c_nano(0) - c_nano(v2) <= C_SLOPE_MAX * v2);
        assert(LOG10_E_NANO * v2 >= C_SLOPE_MAX * v2) by (nonlinear_arith)
            requires
                v2 >= 0,
        ;
    } else if o1 && o2 {
        lemma_c_nano_mono(v1, v2);
        assert(LOG10_E_NANO * v1 + C_SLOPE_MAX * v1 <= LOG10_E_NANO * v2 + C_SLOPE_MAX * v1)
            by (nonlinear_arith)
            requires
                v1 <= v2,
        ;
        assert(c_nano(v1) - c_nano(v2) <= C_SLOPE_MAX * (v2 - v1));
        assert(LOG10_E_NANO * v1 <= LOG10_E_NANO * v2) by (nonlinear_arith)
            requires
                v1 <= v2,
        ;
        assert(C_SLOPE_MAX * (v2 - v1) <= LOG10_E_NANO * (v2 - v1)) by (nonlinear_arith)
            requires
                v1 <= v2,
        ;
        assert(LOG10_E_NANO * v2 - LOG10_E_NANO * v1 == LOG10_E_NANO * (v2 - v1))
            by (nonlinear_arith);
    } else {
        assert(v1 == 0 && v2 == 0);
    }
}

/// The factor `1.5976 + 0.070566 * y^2` in micro units, `y` in thousandths.
pub open spec fn g_micro_of(y: int) -> int {
    1597600 + (70566 * y * y) / 1000000
}

/// The mapped deviation `y * (1.5976 + 0.070566 * y^2)` in thousandths.
pub open spec fn v_milli_of(y: int) -> int {
    (y * g_micro_of(y)) / 1000000
}

pub proof fn lemma_v_milli_bounds(y: int)
    requires
        0 <= y <= Y_CAP_MILLI,
    ensures
        0 <= v_milli_of(y) <= V_CAP_MILLI,
        g_micro_of(y) <= 707_257_600,
{
    assert(0 <= 70566 * y * y <= 70566 * 100000 * 100000) by (nonlinear_arith)
        requires
            0 <= y <= 100000,
    ;
    lemma_div_is_ordered(0, 70566 * y * y, 1000000);
    lemma_div_is_ordered(70566 * y * y, 70566int * 100000 * 100000, 1000000);
    assert(70566int * 100000 * 100000 == 705660000 * 1000000) by (nonlinear_arith);
    assert((705660000int * 1000000) / 1000000 == 705660000) by (nonlinear_arith);
    assert(0 <= y * g_micro_of(y) <= 100000 * 707257600) by (nonlinear_arith)
        requires
            0 <= y <= 100000,
            0 <= g_micro_of(y) <= 707257600,
    ;
    lemma_div_is_ordered(0, y * g_micro_of(y), 1000000);
    lemma_div_is_ordered(y * g_micro_of(y), 100000int * 707257600, 1000000);
    assert(100000int * 707257600 == 70725760 * 1000000) by (nonlinear_arith);
    assert((70725760int * 1000000) / 1000000 == 70725760) by (nonlinear_arith);
}

pub proof fn lemma_v_milli_mono(y1: int, y2: int)
    requires
        0 <= y1 <= y2,
    ensures
        v_milli_of(y1) <= v_milli_of(y2),
{
    assert(70566 * y1 * y1 <= 70566 * y2 * y2) by (nonlinear_arith)
        requires
            0 <= y1 <= y2,
    ;
    lemma_div_is_ordered(70566 * y1 * y1, 70566 * y2 * y2, 1000000);
    lemma_div_pos_is_pos(70566 * y1 * y1, 1000000);
    assert(y1 * g_micro_of(y1) <= y2 * g_micro_of(y2)) by (nonlinear_arith)
        requires
            0 <= y1 <= y2,
            0 <= g_micro_of(y1) <= g_micro_of(y2),
    ;
    lemma_div_is_ordered(y1 * g_micro_of(y1), y2 * g_micro_of(y2), 1000000);
}

/// Executable form of `v_milli_of`.
pub fn v_milli_exec(y: u64) -> (v: u64)
    requires
        y <= Y_CAP_MILLI,
    ensures
        v as int == v_milli_of(y as int),
        v <= V_CAP_MILLI,
{
    proof {
        lemma_v_milli_bounds(y as int);
        assert((70566 * y * y) as int == 70566 * (y as int) * (y as int)) by (nonlinear_arith)
            requires
                0 <= y as int <= 100000,
        ;
    }
    let y128 = y as u128;
    let g: u128 = 1597600 + (70566 * y128 * y128) / 1000000;
    let v: u128 = (y128 * g) / 1000000;
    proof {
        assert(g as int == g_micro_of(y as int));
        assert((y128 * g) as int == (y as int) * g_micro_of(y as int)) by (nonlinear_arith)
            requires
                y128 as int == y as int,
                g as int == g_micro_of(y as int),
                0 <= y as int <= 100000,
                0 <= g as int <= 707257600,
        ;
    }
    v as u64
}

/// Executable form of `phi_nano_of`.
pub fn phi_nano_exec(over: bool, v: u64) -> (p: u64)
    requires
        v <= V_CAP_MILLI,
    ensures
        p as int == phi_nano_of(over, v as int),
{
    let c = c_nano_exec(v);
    if over {
        proof {
            assert(LOG10_E_NANO * (v as int) <= 434294 * 70725760) by (nonlinear_arith)
                requires
                    0 <= v as int <= 70725760,
            ;
        }
        LOG10_E_NANO * v + c
    } else {
        c
    }
}

} // verus!
