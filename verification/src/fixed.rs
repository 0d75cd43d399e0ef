//! Fixed-point scalar arithmetic: a real number is represented by its raw
//! value times 2^-16. All operations truncate toward zero, and each
//! executable operation is proved equal to its specification mirror.
use vstd::prelude::*;

verus! {

/// Raw units per 1.0.
pub const SCALE: i128 = 65536;

pub open spec fn iabs(x: int) -> int {
    if x < 0 {
        -x
    } else {
        x
    }
}

/// Scaled product, truncated toward zero.
pub open spec fn fxm(a: int, b: int) -> int {
    if a * b >= 0 {
        (a * b) / (SCALE as int)
    } else {
        -((-(a * b)) / (SCALE as int))
    }
}

/// Scaled quotient, truncated toward zero (meaningful only for b != 0).
pub open spec fn fxd(a: int, b: int) -> int {
    let q = (iabs(a) * (SCALE as int)) / iabs(b);
    if (a < 0) != (b < 0) {
        -q
    } else {
        q
    }
}

/// The operands' product stays within what the 128-bit intermediate holds.
pub open spec fn fx_prod_ok(a: int, b: int) -> bool {
    -0x40000000000000000000000000000000 <= a * b
        && a * b <= 0x40000000000000000000000000000000
}

pub open spec fn is_sqrt(x: int, r: int) -> bool {
    0 <= r && r * r <= x && x < (r + 1) * (r + 1)
}

/// The integer square root (unique when x >= 0).
pub open spec fn sqrt_val(x: int) -> int {
    choose|r: int| is_sqrt(x, r)
}

pub proof fn lemma_is_sqrt_unique(x: int, r1: int, r2: int)
    requires
        is_sqrt(x, r1),
        is_sqrt(x, r2),
    ensures
        r1 == r2,
{
    assert(r1 == r2) by (nonlinear_arith)
        requires
            0 <= r1 && r1 * r1 <= x && x < (r1 + 1) * (r1 + 1),
            0 <= r2 && r2 * r2 <= x && x < (r2 + 1) * (r2 + 1),
    ;
}

pub proof fn lemma_sqrt_val_is(x: int, r: int)
    requires
        is_sqrt(x, r),
    ensures
        sqrt_val(x) == r,
{
    assert(is_sqrt(x, sqrt_val(x))) by {
        assert(exists|s: int| is_sqrt(x, s));
    }
    lemma_is_sqrt_unique(x, sqrt_val(x), r);
}

/// |fxm(a, b)| is at most the scaled bound of the operands' bounds.
pub proof fn lemma_fxm_abs(a: int, b: int, aa: int, bb: int)
    requires
        -aa <= a <= aa,
        -bb <= b <= bb,
        0 <= aa,
        0 <= bb,
    ensures
        -((aa * bb) / (SCALE as int)) <= fxm(a, b) <= (aa * bb) / (SCALE as int),
{
    assert(-((aa * bb) / 65536) <= fxm(a, b) <= (aa * bb) / 65536) by (nonlinear_arith)
        requires
            -aa <= a <= aa,
            -bb <= b <= bb,
            0 <= aa,
            0 <= bb,
            fxm(a, b) == (if a * b >= 0 {
                (a * b) / 65536
            } else {
                -((-(a * b)) / 65536)
            }),
    ;
}

/// Multiplying by the unit scale is exact.
pub proof fn lemma_fxm_unit(a: int)
    ensures
        fxm(a, SCALE as int) == a,
        fxm(SCALE as int, a) == a,
{
    assert(fxm(a, 65536) == a && fxm(65536, a) == a) by (nonlinear_arith)
        requires
            fxm(a, 65536) == (if a * 65536 >= 0 {
                (a * 65536) / 65536
            } else {
                -((-(a * 65536)) / 65536)
            }),
            fxm(65536, a) == (if 65536 * a >= 0 {
                (65536 * a) / 65536
            } else {
                -((-(65536 * a)) / 65536)
            }),
    ;
}

/// A product of two factors in [0, 1] stays in [0, 1] and under each factor.
pub proof fn lemma_fxm_frac(a: int, b: int)
    requires
        0 <= a <= SCALE as int,
        0 <= b <= SCALE as int,
    ensures
        0 <= fxm(a, b),
        fxm(a, b) <= a,
        fxm(a, b) <= b,
{
    assert(0 <= fxm(a, b) && fxm(a, b) <= a && fxm(a, b) <= b) by (nonlinear_arith)
        requires
            0 <= a <= 65536,
            0 <= b <= 65536,
            fxm(a, b) == (if a * b >= 0 {
                (a * b) / 65536
            } else {
                -((-(a * b)) / 65536)
            }),
    ;
}

/// Negating one operand negates the truncated product.
pub proof fn lemma_fxm_neg(a: int, b: int)
    ensures
        fxm(-a, b) == -fxm(a, b),
        fxm(a, -b) == -fxm(a, b),
{
    assert(fxm(-a, b) == -fxm(a, b) && fxm(a, -b) == -fxm(a, b)) by (nonlinear_arith)
        requires
            fxm(a, b) == (if a * b >= 0 {
                (a * b) / 65536
            } else {
                -((-(a * b)) / 65536)
            }),
            fxm(-a, b) == (if (-a) * b >= 0 {
                ((-a) * b) / 65536
            } else {
                -((-((-a) * b)) / 65536)
            }),
            fxm(a, -b) == (if a * (-b) >= 0 {
                (a * (-b)) / 65536
            } else {
                -((-(a * (-b))) / 65536)
            }),
    ;
}

/// |fxd(a, b)| is bounded once the divisor's magnitude is at least one.
pub proof fn lemma_fxd_abs(a: int, b: int, aa: int)
    requires
        -aa <= a <= aa,
        0 <= aa,
        b != 0,
    ensures
        -(aa * (SCALE as int)) <= fxd(a, b) <= aa * (SCALE as int),
{
    assert(-(aa * 65536) <= fxd(a, b) <= aa * 65536) by (nonlinear_arith)
        requires
            -aa <= a <= aa,
            0 <= aa,
            b != 0,
            fxd(a, b) == (if (a < 0) != (b < 0) {
                -((iabs(a) * 65536) / iabs(b))
            } else {
                (iabs(a) * 65536) / iabs(b)
            }),
            iabs(a) == (if a < 0 {
                -a
            } else {
                a
            }),
            iabs(b) == (if b < 0 {
                -b
            } else {
                b
            }),
    ;
}

/// A non-negative numerator and positive divisor give a non-negative
/// quotient.
pub proof fn lemma_fxd_nonneg(a: int, b: int)
    requires
        0 <= a,
        0 < b,
    ensures
        0 <= fxd(a, b),
{
    assert(0 <= fxd(a, b)) by (nonlinear_arith)
        requires
            0 <= a,
            0 < b,
            fxd(a, b) == (if (a < 0) != (b < 0) {
                -((iabs(a) * 65536) / iabs(b))
            } else {
                (iabs(a) * 65536) / iabs(b)
            }),
            iabs(a) == a,
            iabs(b) == b,
    ;
}

/// A quotient of a numerator no larger in magnitude than its divisor stays
/// in the unit window.
pub proof fn lemma_fxd_frac(a: int, b: int)
    requires
        iabs(a) <= iabs(b),
        b != 0,
    ensures
        -65536 <= fxd(a, b) <= 65536,
{
    assert(-65536 <= fxd(a, b) <= 65536) by (nonlinear_arith)
        requires
            iabs(a) <= iabs(b),
            iabs(a) >= 0,
            iabs(b) >= 1,
            fxd(a, b) == (if (a < 0) != (b < 0) {
                -((iabs(a) * 65536) / iabs(b))
            } else {
                (iabs(a) * 65536) / iabs(b)
            }),
    ;
}

/// Dividing by a value of magnitude at least one cannot grow the
/// magnitude.
pub proof fn lemma_fxd_by_ge_one(a: int, b: int, aa: int)
    requires
        -aa <= a <= aa,
        0 <= aa,
        iabs(b) >= 65536,
    ensures
        -aa <= fxd(a, b) <= aa,
{
    assert(-aa <= fxd(a, b) <= aa) by (nonlinear_arith)
        requires
            -aa <= a <= aa,
            0 <= aa,
            iabs(b) >= 65536,
            iabs(a) <= aa,
            fxd(a, b) == (if (a < 0) != (b < 0) {
                -((iabs(a) * 65536) / iabs(b))
            } else {
                (iabs(a) * 65536) / iabs(b)
            }),
            iabs(a) >= 0,
    ;
}

/// Truncating division by a positive divisor is monotone in the numerator.
pub proof fn lemma_fxd_mono(a1: int, a2: int, b: int)
    requires
        a1 <= a2,
        b > 0,
    ensures
        fxd(a1, b) <= fxd(a2, b),
{
    assert(fxd(a1, b) <= fxd(a2, b)) by (nonlinear_arith)
        requires
            a1 <= a2,
            b > 0,
            fxd(a1, b) == (if (a1 < 0) != (b < 0) {
                -((iabs(a1) * 65536) / iabs(b))
            } else {
                (iabs(a1) * 65536) / iabs(b)
            }),
            fxd(a2, b) == (if (a2 < 0) != (b < 0) {
                -((iabs(a2) * 65536) / iabs(b))
            } else {
                (iabs(a2) * 65536) / iabs(b)
            }),
            iabs(a1) == (if a1 < 0 {
                -a1
            } else {
                a1
            }),
            iabs(a2) == (if a2 < 0 {
                -a2
            } else {
                a2
            }),
            iabs(b) == b,
    ;
}

/// Scaled product of two 128-bit raw values; truncates toward zero.
pub fn fx_mul(a: i128, b: i128) -> (r: i128)
    requires
        i128::MIN < a,
        i128::MIN < b,
        fx_prod_ok(a as int, b as int),
    ensures
        r as int == fxm(a as int, b as int),
        -0x4000000000000000000000000000 <= r <= 0x4000000000000000000000000000,
{
    let ua: u128 = if a < 0 {
        (-a) as u128
    } else {
        a as u128
    };
    let ub: u128 = if b < 0 {
        (-b) as u128
    } else {
        b as u128
    };
    proof {
        assert(ua as int == iabs(a as int));
        assert(ub as int == iabs(b as int));
        assert(ua as int * ub as int <= 0x40000000000000000000000000000000) by (nonlinear_arith)
            requires
                ua as int == iabs(a as int),
                ub as int == iabs(b as int),
                fx_prod_ok(a as int, b as int),
                iabs(a as int) == (if a < 0 {
                    -(a as int)
                } else {
                    a as int
                }),
                iabs(b as int) == (if b < 0 {
                    -(b as int)
                } else {
                    b as int
                }),
        ;
    }
    let p: u128 = ua * ub;
    let q: u128 = p / 65536;
    proof {
        assert(q as int <= 0x4000000000000000000000000000) by (nonlinear_arith)
            requires
                q as int == (p as int) / 65536,
                p as int <= 0x40000000000000000000000000000000,
        ;
    }
    let neg: bool = (a < 0) != (b < 0);
    let r: i128 = if neg && q > 0 {
        -(q as i128)
    } else {
        q as i128
    };
    proof {
        assert(r as int == fxm(a as int, b as int)) by (nonlinear_arith)
            requires
                p as int == iabs(a as int) * iabs(b as int),
                q as int == (p as int) / 65536,
                r as int == (if ((a < 0) != (b < 0)) && q > 0 {
                    -(q as int)
                } else {
                    q as int
                }),
                iabs(a as int) == (if a < 0 {
                    -(a as int)
                } else {
                    a as int
                }),
                iabs(b as int) == (if b < 0 {
                    -(b as int)
                } else {
                    b as int
                }),
                fxm(a as int, b as int) == (if (a as int) * (b as int) >= 0 {
                    ((a as int) * (b as int)) / 65536
                } else {
                    -((-((a as int) * (b as int))) / 65536)
                }),
        ;
    }
    r
}

/// Scaled quotient of two raw values; truncates toward zero.
pub fn fx_div(a: i128, b: i128) -> (r: i128)
    requires
        i128::MIN < a,
        i128::MIN < b,
        b != 0,
        -0x4000000000000000000000000000 <= a <= 0x4000000000000000000000000000,
    ensures
        r as int == fxd(a as int, b as int),
        -0x40000000000000000000000000000000 <= r <= 0x40000000000000000000000000000000,
{
    let ua: u128 = if a < 0 {
        (-a) as u128
    } else {
        a as u128
    };
    let ub: u128 = if b < 0 {
        (-b) as u128
    } else {
        b as u128
    };
    let p: u128 = ua * 65536;
    let q: u128 = p / ub;
    let neg: bool = (a < 0) != (b < 0);
    proof {
        assert(q as int == (iabs(a as int) * 65536) / iabs(b as int));
        assert(q as int <= iabs(a as int) * 65536) by (nonlinear_arith)
            requires
                q as int == (iabs(a as int) * 65536) / iabs(b as int),
                iabs(b as int) >= 1,
                iabs(a as int) >= 0,
        ;
    }
    let r: i128 = if neg && q > 0 {
        -(q as i128)
    } else {
        q as i128
    };
    proof {
        assert(r as int == fxd(a as int, b as int)) by (nonlinear_arith)
            requires
                q as int == (iabs(a as int) * 65536) / iabs(b as int),
                r as int == (if ((a < 0) != (b < 0)) && q > 0 {
                    -(q as int)
                } else {
                    q as int
                }),
                iabs(a as int) >= 0,
                iabs(b as int) >= 1,
                fxd(a as int, b as int) == (if ((a as int) < 0) != ((b as int) < 0) {
                    -((iabs(a as int) * 65536) / iabs(b as int))
                } else {
                    (iabs(a as int) * 65536) / iabs(b as int)
                }),
    ;
    }
    r
}

/// Integer division of non-negative raw values.
pub fn div_nn(a: i128, b: i128) -> (r: i128)
    requires
        0 <= a,
        0 < b,
    ensures
        r as int == (a as int) / (b as int),
{
    let q: u128 = (a as u128) / (b as u128);
    q as i128
}

/// Plain integer square root of a 128-bit value.
fn isqrt_u128(x: u128) -> (r: u128)
    requires
        x <= 0x40000000000000000000000000000000,
    ensures
        is_sqrt(x as int, r as int),
        r <= 0x8000000000000000,
{
    let mut lo: u128 = 0;
    let mut hi: u128 = 0x10000000000000000;
    proof {
        assert((hi as int) * (hi as int) > x as int) by (nonlinear_arith)
            requires
                hi == 0x10000000000000000u128,
                x <= 0x40000000000000000000000000000000u128,
        ;
    }
    while hi - lo > 1
        invariant
            lo < hi,
            hi <= 0x10000000000000000,
            x <= 0x40000000000000000000000000000000,
            (lo as int) * (lo as int) <= x as int,
            (x as int) < (hi as int) * (hi as int),
        decreases hi - lo,
    {
        let mid: u128 = lo + (hi - lo) / 2;
        proof {
            assert((mid as int) * (mid as int) <= 0xffffffffffffffffffffffffffffffff)
                by (nonlinear_arith)
                requires
                    mid < 0x10000000000000000u128,
            ;
        }
        if mid * mid <= x {
            lo = mid;
        } else {
            hi = mid;
        }
    }
    proof {
        assert(lo <= 0x8000000000000000u128) by (nonlinear_arith)
            requires
                (lo as int) * (lo as int) <= x as int,
                x <= 0x40000000000000000000000000000000u128,
        ;
    }
    lo
}

/// Square root of a non-negative raw value, rounded down in raw units.
pub fn fx_sqrt(x: i128) -> (r: i128)
    requires
        0 <= x <= 0x4000000000000000000000000000,
    ensures
        r as int == sqrt_val((x as int) * (SCALE as int)),
        0 <= r,
        (r as int) * (r as int) <= (x as int) * (SCALE as int),
        (x as int) * (SCALE as int) < ((r as int) + 1) * ((r as int) + 1),
{
    let n: u128 = (x as u128) * 65536;
    let r: u128 = isqrt_u128(n);
    proof {
        lemma_sqrt_val_is((x as int) * (SCALE as int), r as int);
    }
    r as i128
}

/// Every non-negative value has an integer square root, so the chosen
/// witness of sqrt_val really is one.
pub proof fn lemma_sqrt_exists(x: int)
    requires
        0 <= x,
    ensures
        is_sqrt(x, sqrt_val(x)),
    decreases x,
{
    if x == 0 {
        lemma_sqrt_val_is(0, 0);
    } else {
        lemma_sqrt_exists(x - 1);
        let r = sqrt_val(x - 1);
        if x < (r + 1) * (r + 1) {
            lemma_sqrt_val_is(x, r);
        } else {
            assert(is_sqrt(x, r + 1)) by (nonlinear_arith)
                requires
                    x == (r + 1) * (r + 1),
                    r >= 0,
            ;
            lemma_sqrt_val_is(x, r + 1);
        }
    }
}

/// Scaling by two raw units doubles exactly.
pub proof fn lemma_fxm_double(a: int)
    ensures
        fxm(131072, a) == 2 * a,
{
    assert(fxm(131072, a) == 2 * a) by (nonlinear_arith)
        requires
            fxm(131072, a) == (if 131072 * a >= 0 {
                (131072 * a) / 65536
            } else {
                -((-(131072 * a)) / 65536)
            }),
    ;
}

/// The raw value x saturated into [lo, hi].
pub open spec fn sclamp(x: int, lo: int, hi: int) -> int {
    if x < lo {
        lo
    } else if x > hi {
        hi
    } else {
        x
    }
}

/// Products of values within the given magnitudes stay representable.
pub proof fn lemma_prod_ok(a: int, b: int, aa: int, bb: int)
    requires
        -aa <= a <= aa,
        -bb <= b <= bb,
        0 <= aa,
        0 <= bb,
        aa * bb <= 0x40000000000000000000000000000000,
    ensures
        fx_prod_ok(a, b),
{
    assert(-(aa * bb) <= a * b <= aa * bb) by (nonlinear_arith)
        requires
            -aa <= a <= aa,
            -bb <= b <= bb,
            0 <= aa,
            0 <= bb,
    ;
}

pub proof fn lemma_fxm_sq_nonneg(a: int)
    ensures
        0 <= fxm(a, a),
{
    assert(0 <= fxm(a, a)) by (nonlinear_arith)
        requires
            fxm(a, a) == (if a * a >= 0 {
                (a * a) / 65536
            } else {
                -((-(a * a)) / 65536)
            }),
    ;
}

/// The truncated scaled square sits within one unit of the exact quotient.
pub proof fn lemma_fxm_sq_bounds(a: int)
    ensures
        0 <= fxm(a, a),
        fxm(a, a) * 65536 <= a * a,
        65536 * fxm(a, a) > a * a - 65536,
{
    assert(0 <= fxm(a, a) && fxm(a, a) * 65536 <= a * a && 65536 * fxm(a, a) > a * a - 65536)
        by (nonlinear_arith)
        requires
            fxm(a, a) == (if a * a >= 0 {
                (a * a) / 65536
            } else {
                -((-(a * a)) / 65536)
            }),
    ;
}

/// The truncated scaled product sits within one scale unit of the exact
/// product.
pub proof fn lemma_fxm_err(a: int, b: int)
    ensures
        iabs(65536 * fxm(a, b) - a * b) < 65536,
{
    assert(iabs(65536 * fxm(a, b) - a * b) < 65536) by (nonlinear_arith)
        requires
            fxm(a, b) == (if a * b >= 0 {
                (a * b) / 65536
            } else {
                -((-(a * b)) / 65536)
            }),
            iabs(65536 * fxm(a, b) - a * b) == (if 65536 * fxm(a, b) - a * b < 0 {
                -(65536 * fxm(a, b) - a * b)
            } else {
                65536 * fxm(a, b) - a * b
            }),
    ;
}

/// The truncated scaled quotient, multiplied back by a positive divisor,
/// sits within one divisor of the scaled numerator.
pub proof fn lemma_fxd_err(a: int, b: int)
    requires
        b >= 1,
    ensures
        iabs(b * fxd(a, b) - a * 65536) < b,
{
    assert(iabs(b * fxd(a, b) - a * 65536) < b) by (nonlinear_arith)
        requires
            b >= 1,
            fxd(a, b) == (if (a < 0) != (b < 0) {
                -((iabs(a) * 65536) / iabs(b))
            } else {
                (iabs(a) * 65536) / iabs(b)
            }),
            iabs(a) == (if a < 0 {
                -a
            } else {
                a
            }),
            iabs(b) == b,
            iabs(b * fxd(a, b) - a * 65536) == (if b * fxd(a, b) - a * 65536 < 0 {
                -(b * fxd(a, b) - a * 65536)
            } else {
                b * fxd(a, b) - a * 65536
            }),
    ;
}

pub proof fn lemma_fxm_nonneg(a: int, b: int)
    requires
        0 <= a,
        0 <= b,
    ensures
        0 <= fxm(a, b),
{
    assert(0 <= fxm(a, b)) by (nonlinear_arith)
        requires
            0 <= a,
            0 <= b,
            fxm(a, b) == (if a * b >= 0 {
                (a * b) / 65536
            } else {
                -((-(a * b)) / 65536)
            }),
    ;
}

/// Taylor polynomial for the sine of a small non-negative angle, saturated
/// to the representable range of a sine.
pub open spec fn sin_spec(x: int) -> int {
    let x2 = fxm(x, x);
    let x3 = fxm(x2, x);
    let x5 = fxm(x3, x2);
    let x7 = fxm(x5, x2);
    let x9 = fxm(x7, x2);
    sclamp(x - x3 / 6 + x5 / 120 - x7 / 5040 + x9 / 362880, -131072, 131072)
}

/// Taylor polynomial for the cosine of a small non-negative angle.
pub open spec fn cos_spec(x: int) -> int {
    let x2 = fxm(x, x);
    let x4 = fxm(x2, x2);
    let x6 = fxm(x4, x2);
    let x8 = fxm(x6, x2);
    let x10 = fxm(x8, x2);
    sclamp(
        65536 - x2 / 2 + x4 / 24 - x6 / 720 + x8 / 40320 - x10 / 3628800,
        -131072,
        131072,
    )
}

/// Quotient of the sine and cosine polynomials, with the cosine floored at
/// one raw unit and the result saturated to [0, 16]; the guards are inert
/// for the angles a camera asks about.
pub open spec fn tan_spec(x: int) -> int {
    let s = sin_spec(x);
    let c = cos_spec(x);
    let cpos = if c < 1 {
        1
    } else {
        c
    };
    sclamp(fxd(s, cpos), 0, 1048576)
}

pub fn fx_sin(x: i128) -> (r: i128)
    requires
        0 <= x <= 262144,
    ensures
        r as int == sin_spec(x as int),
        -131072 <= r <= 131072,
{
    proof {
        lemma_prod_ok(x as int, x as int, 262144, 262144);
        lemma_fxm_abs(x as int, x as int, 262144, 262144);
        lemma_fxm_nonneg(x as int, x as int);
    }
    let x2 = fx_mul(x, x);
    proof {
        lemma_prod_ok(x2 as int, x as int, 1048576, 262144);
        lemma_fxm_abs(x2 as int, x as int, 1048576, 262144);
        lemma_fxm_nonneg(x2 as int, x as int);
    }
    let x3 = fx_mul(x2, x);
    proof {
        lemma_prod_ok(x3 as int, x2 as int, 4194304, 1048576);
        lemma_fxm_abs(x3 as int, x2 as int, 4194304, 1048576);
        lemma_fxm_nonneg(x3 as int, x2 as int);
    }
    let x5 = fx_mul(x3, x2);
    proof {
        lemma_prod_ok(x5 as int, x2 as int, 67108864, 1048576);
        lemma_fxm_abs(x5 as int, x2 as int, 67108864, 1048576);
        lemma_fxm_nonneg(x5 as int, x2 as int);
    }
    let x7 = fx_mul(x5, x2);
    proof {
        lemma_prod_ok(x7 as int, x2 as int, 1073741824, 1048576);
        lemma_fxm_abs(x7 as int, x2 as int, 1073741824, 1048576);
        lemma_fxm_nonneg(x7 as int, x2 as int);
    }
    let x9 = fx_mul(x7, x2);
    let t = x - div_nn(x3, 6) + div_nn(x5, 120) - div_nn(x7, 5040) + div_nn(x9, 362880);
    if t < -131072 {
        -131072
    } else if t > 131072 {
        131072
    } else {
        t
    }
}

pub fn fx_cos(x: i128) -> (r: i128)
    requires
        0 <= x <= 262144,
    ensures
        r as int == cos_spec(x as int),
        -131072 <= r <= 131072,
{
    proof {
        lemma_prod_ok(x as int, x as int, 262144, 262144);
        lemma_fxm_abs(x as int, x as int, 262144, 262144);
        lemma_fxm_nonneg(x as int, x as int);
    }
    let x2 = fx_mul(x, x);
    proof {
        lemma_prod_ok(x2 as int, x2 as int, 1048576, 1048576);
        lemma_fxm_abs(x2 as int, x2 as int, 1048576, 1048576);
        lemma_fxm_nonneg(x2 as int, x2 as int);
    }
    let x4 = fx_mul(x2, x2);
    proof {
        lemma_prod_ok(x4 as int, x2 as int, 16777216, 1048576);
        lemma_fxm_abs(x4 as int, x2 as int, 16777216, 1048576);
        lemma_fxm_nonneg(x4 as int, x2 as int);
    }
    let x6 = fx_mul(x4, x2);
    proof {
        lemma_prod_ok(x6 as int, x2 as int, 268435456, 1048576);
        lemma_fxm_abs(x6 as int, x2 as int, 268435456, 1048576);
        lemma_fxm_nonneg(x6 as int, x2 as int);
    }
    let x8 = fx_mul(x6, x2);
    proof {
        lemma_prod_ok(x8 as int, x2 as int, 4294967296, 1048576);
        lemma_fxm_abs(x8 as int, x2 as int, 4294967296, 1048576);
        lemma_fxm_nonneg(x8 as int, x2 as int);
    }
    let x10 = fx_mul(x8, x2);
    let t = 65536 - div_nn(x2, 2) + div_nn(x4, 24) - div_nn(x6, 720) + div_nn(x8, 40320)
        - div_nn(x10, 3628800);
    if t < -131072 {
        -131072
    } else if t > 131072 {
        131072
    } else {
        t
    }
}

/// Cosine over a half turn, folded onto the polynomial's domain.
pub open spec fn cos_half_spec(a: int) -> int {
    if a >= 102944 {
        -cos_spec(205887 - a)
    } else {
        cos_spec(a)
    }
}

/// Sine over a half turn, folded onto the polynomial's domain.
pub open spec fn sin_half_spec(a: int) -> int {
    if a >= 102944 {
        sin_spec(205887 - a)
    } else {
        sin_spec(a)
    }
}

/// Cosine over a full turn.
pub open spec fn cos_full_spec(a: int) -> int {
    if a >= 205887 {
        -cos_half_spec(a - 205887)
    } else {
        cos_half_spec(a)
    }
}

/// Sine over a full turn.
pub open spec fn sin_full_spec(a: int) -> int {
    if a >= 205887 {
        -sin_half_spec(a - 205887)
    } else {
        sin_half_spec(a)
    }
}

/// Cosine and sine of an angle within one turn, by quadrant folding.
pub fn fx_cos_sin(a: i128) -> (r: (i128, i128))
    requires
        0 <= a < 411775,
    ensures
        r.0 as int == cos_full_spec(a as int),
        r.1 as int == sin_full_spec(a as int),
        -131072 <= r.0 <= 131072,
        -131072 <= r.1 <= 131072,
{
    let (flip, a1) = if a >= 205887 {
        (true, a - 205887)
    } else {
        (false, a)
    };
    let (c, s) = if a1 >= 102944 {
        (-fx_cos(205887 - a1), fx_sin(205887 - a1))
    } else {
        (fx_cos(a1), fx_sin(a1))
    };
    if flip {
        (-c, -s)
    } else {
        (c, s)
    }
}

pub fn fx_tan(x: i128) -> (r: i128)
    requires
        0 <= x <= 262144,
    ensures
        r as int == tan_spec(x as int),
        0 <= r <= 1048576,
{
    let s = fx_sin(x);
    let c = fx_cos(x);
    let cpos = if c < 1 {
        1
    } else {
        c
    };
    let t = fx_div(s, cpos);
    if t < 0 {
        0
    } else if t > 1048576 {
        1048576
    } else {
        t
    }
}

} // verus!
