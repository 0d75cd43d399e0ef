//! Scalar helpers: the random source, angle conversion and clamping.
use vstd::prelude::*;

use crate::fixed::{fx_div, fx_mul, fxd, fxm, sclamp};

verus! {

/// One raw turn of pi, and half a turn in degrees, in raw units.
pub const PI_RAW: i128 = 205887;

pub const HALF_TURN_DEG_RAW: i128 = 11796480;

/// Relies on rand::random::<u16>, a uniform draw over every u16 value:
/// reinterpreted as a raw fraction, the result always lies in [0, 1).
#[verifier::external_body]
pub fn random_double() -> (r: i128)
    ensures
        0 <= r < 65536,
{
    rand::random::<u16>() as i128
}

/// A random raw value in [lo, hi): no more is promised of the draw than
/// its range.
pub fn random_in_range(lo: i128, hi: i128) -> (r: i128)
    requires
        lo <= hi,
        -0x1000000000000000 <= lo <= 0x1000000000000000,
        -0x1000000000000000 <= hi <= 0x1000000000000000,
    ensures
        lo <= r,
        lo < hi ==> r < hi,
        lo == hi ==> r == lo,
{
    let f = random_double();
    let d = hi - lo;
    proof {
        crate::fixed::lemma_prod_ok(f as int, d as int, 65536, 0x2000000000000000);
    }
    let off = fx_mul(f, d);
    proof {
        assert(0 <= off as int && (d > 0 ==> (off as int) < (d as int)) && (d == 0 ==> off == 0))
            by (nonlinear_arith)
            requires
                off as int == fxm(f as int, d as int),
                fxm(f as int, d as int) == (if (f as int) * (d as int) >= 0 {
                    ((f as int) * (d as int)) / 65536
                } else {
                    -((-((f as int) * (d as int))) / 65536)
                }),
                0 <= f < 65536,
                0 <= d,
        ;
    }
    lo + off
}

/// Angle conversion by the raw ratio of pi to half a turn.
pub open spec fn deg_to_rad_spec(d: int) -> int {
    fxd(fxm(d, PI_RAW as int), HALF_TURN_DEG_RAW as int)
}

pub fn degrees_to_radians(degrees: i128) -> (r: i128)
    requires
        -0x10000000000 <= degrees <= 0x10000000000,
    ensures
        r as int == deg_to_rad_spec(degrees as int),
{
    proof {
        crate::fixed::lemma_prod_ok(degrees as int, PI_RAW as int, 0x10000000000, 205887);
        crate::fixed::lemma_fxm_abs(degrees as int, PI_RAW as int, 0x10000000000, 205887);
    }
    let scaled = fx_mul(degrees, PI_RAW);
    fx_div(scaled, HALF_TURN_DEG_RAW)
}

/// The raw value x limited to [lo, hi].
pub fn clamp(x: i128, lo: i128, hi: i128) -> (r: i128)
    ensures
        r as int == sclamp(x as int, lo as int, hi as int),
{
    if x < lo {
        return lo;
    }
    if x > hi {
        return hi;
    }
    x
}

} // verus!
