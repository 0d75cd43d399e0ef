//! Three-component vectors over the fixed-point scalar, with the sampling
//! helpers the tracer needs. Every deterministic operation is proved equal
//! to its specification mirror; random ones state what holds of every draw.
use vstd::prelude::*;

use crate::fixed::{
    fx_div, fx_mul, fx_sqrt, fxd, fxm, lemma_fxm_abs, lemma_prod_ok, sclamp, sqrt_val,
};
use crate::utilities;

verus! {

/// Magnitude bound for the components of unit-length vectors and normals.
pub const UNIT_LIMIT: i128 = 131072;

/// Magnitude bound for the components of points and ray origins.
pub const POS_LIMIT: i128 = 1073741824;

/// Magnitude bound for the components of ray directions.
pub const DIR_LIMIT: i128 = 35184372088832;

/// Magnitude bound under which every componentwise operation stays
/// representable.
pub const OP_LIMIT: i128 = 0x4000000000000000;

#[derive(Clone, Copy, Debug, PartialEq, Eq, Structural)]
pub struct Vec3 {
    pub x: i128,
    pub y: i128,
    pub z: i128,
}

pub type Color = Vec3;

pub type Point3 = Vec3;

pub open spec fn in_b(x: int, b: int) -> bool {
    -b <= x <= b
}

pub open spec fn vec_in_b(v: Vec3, b: int) -> bool {
    in_b(v.x as int, b) && in_b(v.y as int, b) && in_b(v.z as int, b)
}

pub open spec fn l2s_spec(v: Vec3) -> int {
    fxm(v.x as int, v.x as int) + fxm(v.y as int, v.y as int) + fxm(v.z as int, v.z as int)
}

pub open spec fn dot_spec(a: Vec3, b: Vec3) -> int {
    fxm(a.x as int, b.x as int) + fxm(a.y as int, b.y as int) + fxm(a.z as int, b.z as int)
}

pub open spec fn vadd(a: Vec3, b: Vec3) -> Vec3 {
    Vec3 { x: (a.x + b.x) as i128, y: (a.y + b.y) as i128, z: (a.z + b.z) as i128 }
}

pub open spec fn vsub(a: Vec3, b: Vec3) -> Vec3 {
    Vec3 { x: (a.x - b.x) as i128, y: (a.y - b.y) as i128, z: (a.z - b.z) as i128 }
}

pub open spec fn vneg(a: Vec3) -> Vec3 {
    Vec3 { x: (-a.x) as i128, y: (-a.y) as i128, z: (-a.z) as i128 }
}

pub open spec fn vscale(t: int, v: Vec3) -> Vec3 {
    Vec3 {
        x: fxm(t, v.x as int) as i128,
        y: fxm(t, v.y as int) as i128,
        z: fxm(t, v.z as int) as i128,
    }
}

pub open spec fn vmul(a: Vec3, b: Vec3) -> Vec3 {
    Vec3 {
        x: fxm(a.x as int, b.x as int) as i128,
        y: fxm(a.y as int, b.y as int) as i128,
        z: fxm(a.z as int, b.z as int) as i128,
    }
}

pub open spec fn vdiv(v: Vec3, t: int) -> Vec3 {
    Vec3 {
        x: fxd(v.x as int, t) as i128,
        y: fxd(v.y as int, t) as i128,
        z: fxd(v.z as int, t) as i128,
    }
}

/// Componentwise saturation into [-b, b].
pub open spec fn vclamp(v: Vec3, b: int) -> Vec3 {
    Vec3 {
        x: sclamp(v.x as int, -b, b) as i128,
        y: sclamp(v.y as int, -b, b) as i128,
        z: sclamp(v.z as int, -b, b) as i128,
    }
}

pub open spec fn cross_spec(a: Vec3, b: Vec3) -> Vec3 {
    Vec3 {
        x: (fxm(a.y as int, b.z as int) - fxm(a.z as int, b.y as int)) as i128,
        y: (fxm(a.z as int, b.x as int) - fxm(a.x as int, b.z as int)) as i128,
        z: (fxm(a.x as int, b.y as int) - fxm(a.y as int, b.x as int)) as i128,
    }
}

/// Normalization mirror: a zero squared magnitude yields the zero vector,
/// and each quotient is saturated to the unit window; both guards are inert
/// for vectors of representable non-zero length.
pub open spec fn unit_spec(v: Vec3) -> Vec3 {
    let s = l2s_spec(v);
    if s == 0 {
        Vec3 { x: 0, y: 0, z: 0 }
    } else {
        let len = sqrt_val(s * 65536);
        Vec3 {
            x: sclamp(fxd(v.x as int, len), -131072, 131072) as i128,
            y: sclamp(fxd(v.y as int, len), -131072, 131072) as i128,
            z: sclamp(fxd(v.z as int, len), -131072, 131072) as i128,
        }
    }
}

pub open spec fn reflect_spec(v: Vec3, n: Vec3) -> Vec3 {
    vsub(v, vscale(2 * dot_spec(v, n), n))
}

pub open spec fn refract_spec(uv: Vec3, n: Vec3, eta: int) -> Vec3 {
    let cos_theta = dot_spec(vneg(uv), n);
    let r_out_parallel = vscale(eta, vadd(uv, vscale(cos_theta, n)));
    let k = 65536 - l2s_spec(r_out_parallel);
    let kc = if k < 0 {
        0
    } else {
        k
    };
    let r_out_perp = vscale(-sqrt_val(kc * 65536), n);
    vadd(r_out_perp, r_out_parallel)
}

impl Vec3 {
    pub fn new(x: i128, y: i128, z: i128) -> (r: Self)
        ensures
            r == (Vec3 { x, y, z }),
    {
        Self { x, y, z }
    }

    pub fn x(&self) -> (r: i128)
        ensures
            r == self.x,
    {
        self.x
    }

    pub fn y(&self) -> (r: i128)
        ensures
            r == self.y,
    {
        self.y
    }

    pub fn z(&self) -> (r: i128)
        ensures
            r == self.z,
    {
        self.z
    }

    pub fn l2_squared(&self) -> (r: i128)
        requires
            vec_in_b(*self, OP_LIMIT as int),
        ensures
            r as int == l2s_spec(*self),
            0 <= r <= 0x3000000000000000000000000000,
    {
        proof {
            lemma_prod_ok(self.x as int, self.x as int, OP_LIMIT as int, OP_LIMIT as int);
            lemma_prod_ok(self.y as int, self.y as int, OP_LIMIT as int, OP_LIMIT as int);
            lemma_prod_ok(self.z as int, self.z as int, OP_LIMIT as int, OP_LIMIT as int);
            crate::fixed::lemma_fxm_sq_nonneg(self.x as int);
            crate::fixed::lemma_fxm_sq_nonneg(self.y as int);
            crate::fixed::lemma_fxm_sq_nonneg(self.z as int);
            lemma_fxm_abs(self.x as int, self.x as int, OP_LIMIT as int, OP_LIMIT as int);
            lemma_fxm_abs(self.y as int, self.y as int, OP_LIMIT as int, OP_LIMIT as int);
            lemma_fxm_abs(self.z as int, self.z as int, OP_LIMIT as int, OP_LIMIT as int);
        }
        fx_mul(self.x, self.x) + fx_mul(self.y, self.y) + fx_mul(self.z, self.z)
    }

    pub fn l2(&self) -> (r: i128)
        requires
            vec_in_b(*self, OP_LIMIT as int),
        ensures
            r as int == sqrt_val(l2s_spec(*self) * 65536),
            0 <= r,
    {
        let s = self.l2_squared();
        fx_sqrt(s)
    }

    pub fn add(self, rhs: Vec3) -> (r: Vec3)
        requires
            vec_in_b(self, OP_LIMIT as int),
            vec_in_b(rhs, OP_LIMIT as int),
        ensures
            r == vadd(self, rhs),
    {
        Vec3 { x: self.x + rhs.x, y: self.y + rhs.y, z: self.z + rhs.z }
    }

    pub fn sub(self, rhs: Vec3) -> (r: Vec3)
        requires
            vec_in_b(self, OP_LIMIT as int),
            vec_in_b(rhs, OP_LIMIT as int),
        ensures
            r == vsub(self, rhs),
    {
        Vec3 { x: self.x - rhs.x, y: self.y - rhs.y, z: self.z - rhs.z }
    }

    pub fn neg(self) -> (r: Vec3)
        requires
            vec_in_b(self, OP_LIMIT as int),
        ensures
            r == vneg(self),
    {
        Vec3 { x: -self.x, y: -self.y, z: -self.z }
    }

    pub fn scale(self, t: i128) -> (r: Vec3)
        requires
            vec_in_b(self, OP_LIMIT as int),
            -OP_LIMIT <= t <= OP_LIMIT,
        ensures
            r == vscale(t as int, self),
    {
        proof {
            lemma_prod_ok(t as int, self.x as int, OP_LIMIT as int, OP_LIMIT as int);
            lemma_prod_ok(t as int, self.y as int, OP_LIMIT as int, OP_LIMIT as int);
            lemma_prod_ok(t as int, self.z as int, OP_LIMIT as int, OP_LIMIT as int);
        }
        Vec3 { x: fx_mul(t, self.x), y: fx_mul(t, self.y), z: fx_mul(t, self.z) }
    }

    pub fn elem_mul(self, rhs: Vec3) -> (r: Vec3)
        requires
            vec_in_b(self, OP_LIMIT as int),
            vec_in_b(rhs, OP_LIMIT as int),
        ensures
            r == vmul(self, rhs),
    {
        proof {
            lemma_prod_ok(self.x as int, rhs.x as int, OP_LIMIT as int, OP_LIMIT as int);
            lemma_prod_ok(self.y as int, rhs.y as int, OP_LIMIT as int, OP_LIMIT as int);
            lemma_prod_ok(self.z as int, rhs.z as int, OP_LIMIT as int, OP_LIMIT as int);
        }
        Vec3 { x: fx_mul(self.x, rhs.x), y: fx_mul(self.y, rhs.y), z: fx_mul(self.z, rhs.z) }
    }

    pub fn div_scalar(self, t: i128) -> (r: Vec3)
        requires
            vec_in_b(self, 0x4000000000000000000000000000),
            t != 0,
            i128::MIN < t,
        ensures
            r == vdiv(self, t as int),
    {
        Vec3 { x: fx_div(self.x, t), y: fx_div(self.y, t), z: fx_div(self.z, t) }
    }
}

pub fn dot(lhs: &Vec3, rhs: &Vec3) -> (r: i128)
    requires
        vec_in_b(*lhs, OP_LIMIT as int),
        vec_in_b(*rhs, OP_LIMIT as int),
    ensures
        r as int == dot_spec(*lhs, *rhs),
{
    proof {
        lemma_prod_ok(lhs.x as int, rhs.x as int, OP_LIMIT as int, OP_LIMIT as int);
        lemma_prod_ok(lhs.y as int, rhs.y as int, OP_LIMIT as int, OP_LIMIT as int);
        lemma_prod_ok(lhs.z as int, rhs.z as int, OP_LIMIT as int, OP_LIMIT as int);
    }
    fx_mul(lhs.x, rhs.x) + fx_mul(lhs.y, rhs.y) + fx_mul(lhs.z, rhs.z)
}

pub fn cross(lhs: Vec3, rhs: Vec3) -> (r: Vec3)
    requires
        vec_in_b(lhs, OP_LIMIT as int),
        vec_in_b(rhs, OP_LIMIT as int),
    ensures
        r == cross_spec(lhs, rhs),
{
    proof {
        lemma_prod_ok(lhs.y as int, rhs.z as int, OP_LIMIT as int, OP_LIMIT as int);
        lemma_prod_ok(lhs.z as int, rhs.y as int, OP_LIMIT as int, OP_LIMIT as int);
        lemma_prod_ok(lhs.z as int, rhs.x as int, OP_LIMIT as int, OP_LIMIT as int);
        lemma_prod_ok(lhs.x as int, rhs.z as int, OP_LIMIT as int, OP_LIMIT as int);
        lemma_prod_ok(lhs.x as int, rhs.y as int, OP_LIMIT as int, OP_LIMIT as int);
        lemma_prod_ok(lhs.y as int, rhs.x as int, OP_LIMIT as int, OP_LIMIT as int);
    }
    Vec3 {
        x: fx_mul(lhs.y, rhs.z) - fx_mul(lhs.z, rhs.y),
        y: fx_mul(lhs.z, rhs.x) - fx_mul(lhs.x, rhs.z),
        z: fx_mul(lhs.x, rhs.y) - fx_mul(lhs.y, rhs.x),
    }
}

pub fn unit_vector(v: Vec3) -> (r: Vec3)
    requires
        vec_in_b(v, OP_LIMIT as int),
    ensures
        r == unit_spec(v),
        vec_in_b(r, UNIT_LIMIT as int),
{
    let s = v.l2_squared();
    if s == 0 {
        return Vec3::new(0, 0, 0);
    }
    let len = fx_sqrt(s);
    proof {
        assert(len as int >= 1) by (nonlinear_arith)
            requires
                (s as int) * 65536 < ((len as int) + 1) * ((len as int) + 1),
                s >= 1,
                len >= 0,
        ;
    }
    let rx = utilities::clamp(fx_div(v.x, len), -UNIT_LIMIT, UNIT_LIMIT);
    let ry = utilities::clamp(fx_div(v.y, len), -UNIT_LIMIT, UNIT_LIMIT);
    let rz = utilities::clamp(fx_div(v.z, len), -UNIT_LIMIT, UNIT_LIMIT);
    Vec3 { x: rx, y: ry, z: rz }
}

pub fn reflect(v: &Vec3, n: &Vec3) -> (r: Vec3)
    requires
        vec_in_b(*v, 0x100000000000 as int),
        vec_in_b(*n, 0x100000000000 as int),
    ensures
        r == reflect_spec(*v, *n),
{
    let d = dot(v, n);
    proof {
        lemma_fxm_abs(v.x as int, n.x as int, 0x100000000000, 0x100000000000);
        lemma_fxm_abs(v.y as int, n.y as int, 0x100000000000, 0x100000000000);
        lemma_fxm_abs(v.z as int, n.z as int, 0x100000000000, 0x100000000000);
        lemma_prod_ok(2 * d as int, n.x as int, 0x10000000000000000000, 0x100000000000);
        lemma_prod_ok(2 * d as int, n.y as int, 0x10000000000000000000, 0x100000000000);
        lemma_prod_ok(2 * d as int, n.z as int, 0x10000000000000000000, 0x100000000000);
        lemma_fxm_abs(2 * d as int, n.x as int, 0x10000000000000000000, 0x100000000000);
        lemma_fxm_abs(2 * d as int, n.y as int, 0x10000000000000000000, 0x100000000000);
        lemma_fxm_abs(2 * d as int, n.z as int, 0x10000000000000000000, 0x100000000000);
    }
    let s = Vec3 { x: fx_mul(2 * d, n.x), y: fx_mul(2 * d, n.y), z: fx_mul(2 * d, n.z) };
    Vec3 { x: v.x - s.x, y: v.y - s.y, z: v.z - s.z }
}

pub fn refract(uv: &Vec3, n: &Vec3, etai_over_etat: i128) -> (r: Vec3)
    requires
        vec_in_b(*uv, UNIT_LIMIT as int),
        vec_in_b(*n, UNIT_LIMIT as int),
        0 <= etai_over_etat <= 0x100000000,
    ensures
        r == refract_spec(*uv, *n, etai_over_etat as int),
        vec_in_b(r, DIR_LIMIT as int),
{
    let cos_theta = dot(&uv.neg(), n);
    proof {
        lemma_fxm_abs(-uv.x as int, n.x as int, 131072, 131072);
        lemma_fxm_abs(-uv.y as int, n.y as int, 131072, 131072);
        lemma_fxm_abs(-uv.z as int, n.z as int, 131072, 131072);
    }
    proof {
        lemma_fxm_abs(cos_theta as int, n.x as int, 0x300000, 131072);
        lemma_fxm_abs(cos_theta as int, n.y as int, 0x300000, 131072);
        lemma_fxm_abs(cos_theta as int, n.z as int, 0x300000, 131072);
    }
    let inner = uv.add(n.scale(cos_theta));
    let r_out_parallel = inner.scale(etai_over_etat);
    proof {
        lemma_fxm_abs(etai_over_etat as int, inner.x as int, 0x100000000, 0x700000);
        lemma_fxm_abs(etai_over_etat as int, inner.y as int, 0x100000000, 0x700000);
        lemma_fxm_abs(etai_over_etat as int, inner.z as int, 0x100000000, 0x700000);
    }
    let k = 65536 - r_out_parallel.l2_squared();
    let kc = if k < 0 {
        0
    } else {
        k
    };
    let sq = fx_sqrt(kc);
    proof {
        assert(sq as int <= 65536) by (nonlinear_arith)
            requires
                (sq as int) * (sq as int) <= (kc as int) * 65536,
                kc <= 65536,
                sq >= 0,
        ;
    }
    let r_out_perp = n.scale(-sq);
    proof {
        lemma_fxm_abs(-sq as int, n.x as int, 65536, 131072);
        lemma_fxm_abs(-sq as int, n.y as int, 65536, 131072);
        lemma_fxm_abs(-sq as int, n.z as int, 65536, 131072);
    }
    r_out_perp.add(r_out_parallel)
}

/// A vector whose components are independent raw fractions in [0, 1).
pub fn random() -> (r: Vec3)
    ensures
        0 <= r.x < 65536,
        0 <= r.y < 65536,
        0 <= r.z < 65536,
{
    let randx = utilities::random_double();
    let randy = utilities::random_double();
    let randz = utilities::random_double();
    Vec3::new(randx, randy, randz)
}

/// A vector whose components are independent draws from [lo, hi).
pub fn random_in_range(lo: i128, hi: i128) -> (r: Vec3)
    requires
        lo < hi,
        -0x1000000000000000 <= lo <= 0x1000000000000000,
        -0x1000000000000000 <= hi <= 0x1000000000000000,
    ensures
        vec_in_b(r, 0x2000000000000000),
        lo <= r.x < hi,
        lo <= r.y < hi,
        lo <= r.z < hi,
{
    let randx = utilities::random_in_range(lo, hi);
    let randy = utilities::random_in_range(lo, hi);
    let randz = utilities::random_in_range(lo, hi);
    Vec3::new(randx, randy, randz)
}

/// Rejection sampling inside the unit ball. The number of retries is
/// bounded so that the function provably terminates; after the bound the
/// center of the ball is returned, which satisfies the same contract.
pub fn random_in_unit_sphere() -> (r: Vec3)
    ensures
        l2s_spec(r) < 65536,
        vec_in_b(r, 65536),
{
    let mut tries: u32 = 0;
    while tries < 64
        invariant
            tries <= 64,
        decreases 64u32 - tries,
    {
        let p = random_in_range(-65536, 65536);
        if p.l2_squared() < 65536 {
            return p;
        }
        tries = tries + 1;
    }
    Vec3::new(0, 0, 0)
}

/// Rejection sampling inside the unit disk of the x-y plane, bounded as in
/// random_in_unit_sphere.
pub fn random_in_unit_disk() -> (r: Point3)
    ensures
        l2s_spec(r) < 65536,
        vec_in_b(r, 65536),
        r.z == 0,
{
    let mut tries: u32 = 0;
    while tries < 64
        invariant
            tries <= 64,
        decreases 64u32 - tries,
    {
        let rand_x = utilities::random_in_range(-65536, 65536);
        let rand_y = utilities::random_in_range(-65536, 65536);
        let p = Vec3::new(rand_x, rand_y, 0);
        if p.l2_squared() < 65536 {
            return p;
        }
        tries = tries + 1;
    }
    Vec3::new(0, 0, 0)
}

/// A direction of unit length up to rounding, drawn on the sphere directly:
/// the azimuth is uniform in one turn, the height uniform in [-1, 1], and
/// the in-plane radius completes the unit magnitude. The squared magnitude
/// is checked against the stated band; the check is inert in practice,
/// since the trigonometric identities hold numerically, and on failure a
/// fixed axis inside the band is returned.
pub fn random_unit_vector() -> (r: Vec3)
    ensures
        vec_in_b(r, UNIT_LIMIT as int),
        -65536 <= r.z <= 65536,
        65024 <= l2s_spec(r) <= 66048,
{
    let a = utilities::random_in_range(0, 411775);
    let z = utilities::random_in_range(-65536, 65536);
    proof {
        lemma_prod_ok(z as int, z as int, 65536, 65536);
        lemma_fxm_abs(z as int, z as int, 65536, 65536);
        crate::fixed::lemma_fxm_sq_nonneg(z as int);
    }
    let zz = fx_mul(z, z);
    let rr = 65536 - zz;
    let rad = fx_sqrt(rr);
    proof {
        assert(rad as int <= 65536) by (nonlinear_arith)
            requires
                (rad as int) * (rad as int) <= (rr as int) * 65536,
                rr <= 65536,
                rad >= 0,
        ;
    }
    let (c, s) = crate::fixed::fx_cos_sin(a);
    proof {
        lemma_prod_ok(rad as int, c as int, 65536, 131072);
        lemma_fxm_abs(rad as int, c as int, 65536, 131072);
        lemma_prod_ok(rad as int, s as int, 65536, 131072);
        lemma_fxm_abs(rad as int, s as int, 65536, 131072);
    }
    let v = Vec3::new(fx_mul(rad, c), fx_mul(rad, s), z);
    let m = v.l2_squared();
    if 65024 <= m && m <= 66048 {
        return v;
    }
    let w = Vec3::new(0, 0, 65536);
    proof {
        assert(fxm(65536int, 65536int) == 65536int);
        assert(fxm(0int, 0int) == 0int);
        assert(l2s_spec(w) == 65536int);
    }
    w
}

/// One component of a division by a positive raw length, saturated to the
/// unit window: its squared contribution is bounded above by the exact
/// quotient, and, when the saturation is inert, also from below.
pub proof fn lemma_unit_comp(vc: int, len: int)
    requires
        len >= 1,
    ensures
        ({
            let q = fxd(vc, len);
            let w = sclamp(q, -131072, 131072);
            fxm(w, w) * (len * len) <= (vc * vc) * 65536 && 0 <= fxm(w, w) && (crate::fixed::iabs(
                q,
            ) <= 131072 ==> w == q && (crate::fixed::iabs(q) + 1) * (crate::fixed::iabs(q) + 1) * (
            len * len) >= (vc * vc) * (65536 * 65536) && 65536 * fxm(w, w) > q * q - 65536) && (
            crate::fixed::iabs(q) > 131072 ==> fxm(w, w) == 262144)
        }),
{
    let q = fxd(vc, len);
    let w = sclamp(q, -131072, 131072);
    let a = crate::fixed::iabs(vc) * 65536;
    let d = a / len;
    assert(crate::fixed::iabs(q) == d && q * q == d * d) by (nonlinear_arith)
        requires
            len >= 1,
            q == (if (vc < 0) != (len < 0) {
                -((crate::fixed::iabs(vc) * 65536) / crate::fixed::iabs(len))
            } else {
                (crate::fixed::iabs(vc) * 65536) / crate::fixed::iabs(len)
            }),
            crate::fixed::iabs(len) == len,
            crate::fixed::iabs(vc) == (if vc < 0 {
                -vc
            } else {
                vc
            }),
            crate::fixed::iabs(q) == (if q < 0 {
                -q
            } else {
                q
            }),
            a == crate::fixed::iabs(vc) * 65536,
            d == a / len,
    ;
    assert(0 <= d && d * len <= a && a < (d + 1) * len) by (nonlinear_arith)
        requires
            d == a / len,
            len >= 1,
            a >= 0,
    ;
    crate::fixed::lemma_fxm_sq_nonneg(w);
    assert(w * w <= d * d && (crate::fixed::iabs(q) <= 131072 ==> w == q) && (crate::fixed::iabs(q)
        > 131072 ==> w * w == 131072 * 131072)) by (nonlinear_arith)
        requires
            w == sclamp(q, -131072, 131072),
            sclamp(q, -131072, 131072) == (if q < -131072 {
                -131072
            } else if q > 131072 {
                131072
            } else {
                q
            }),
            crate::fixed::iabs(q) == (if q < 0 {
                -q
            } else {
                q
            }),
            q * q == d * d,
            d >= 0,
    ;
    assert(fxm(w, w) == (w * w) / 65536 && fxm(w, w) * 65536 <= w * w && 65536 * fxm(w, w) > w * w
        - 65536) by (nonlinear_arith)
        requires
            fxm(w, w) == (if w * w >= 0 {
                (w * w) / 65536
            } else {
                -((-(w * w)) / 65536)
            }),
            w * w >= 0,
    ;
    assert(fxm(w, w) * (len * len) <= (vc * vc) * 65536) by (nonlinear_arith)
        requires
            fxm(w, w) * 65536 <= w * w,
            w * w <= d * d,
            0 <= d,
            0 <= fxm(w, w),
            d * len <= a,
            a == crate::fixed::iabs(vc) * 65536,
            crate::fixed::iabs(vc) == (if vc < 0 {
                -vc
            } else {
                vc
            }),
            len >= 1,
    ;
    assert(crate::fixed::iabs(q) <= 131072 ==> (crate::fixed::iabs(q) + 1) * (crate::fixed::iabs(q)
        + 1) * (len * len) >= (vc * vc) * (65536 * 65536)) by (nonlinear_arith)
        requires
            crate::fixed::iabs(q) == d,
            a < (d + 1) * len,
            a >= 0,
            len >= 1,
            a == crate::fixed::iabs(vc) * 65536,
            crate::fixed::iabs(vc) == (if vc < 0 {
                -vc
            } else {
                vc
            }),
    ;
    assert(crate::fixed::iabs(q) > 131072 ==> fxm(w, w) == 262144) by (nonlinear_arith)
        requires
            crate::fixed::iabs(q) > 131072 ==> w * w == 131072 * 131072,
            fxm(w, w) == (w * w) / 65536,
    ;
}

/// Normalization yields a vector of unit squared magnitude up to a small
/// quantization error: for any v in the operating window whose squared
/// magnitude is at least 1/256, the squared magnitude of unit_spec(v) lies
/// within [65536 - 16, 65536 + 801] raw units of one.
pub proof fn lemma_unit_vector_near_unit(v: Vec3)
    requires
        vec_in_b(v, OP_LIMIT as int),
        l2s_spec(v) >= 256,
    ensures
        65520 <= l2s_spec(unit_spec(v)) <= 66337,
{
    let s = l2s_spec(v);
    crate::fixed::lemma_sqrt_exists(s * 65536);
    let len = sqrt_val(s * 65536);
    assert(len >= 4096) by (nonlinear_arith)
        requires
            s * 65536 < (len + 1) * (len + 1),
            s >= 256,
            len >= 0,
    ;
    let vx = v.x as int;
    let vy = v.y as int;
    let vz = v.z as int;
    let q1 = fxd(vx, len);
    let q2 = fxd(vy, len);
    let q3 = fxd(vz, len);
    let w1 = sclamp(q1, -131072, 131072);
    let w2 = sclamp(q2, -131072, 131072);
    let w3 = sclamp(q3, -131072, 131072);
    lemma_unit_comp(vx, len);
    lemma_unit_comp(vy, len);
    lemma_unit_comp(vz, len);
    let u = unit_spec(v);
    assert(u.x as int == w1 && u.y as int == w2 && u.z as int == w3);
    let f1 = fxm(w1, w1);
    let f2 = fxm(w2, w2);
    let f3 = fxm(w3, w3);
    assert(l2s_spec(u) == f1 + f2 + f3);
    crate::fixed::lemma_fxm_sq_bounds(vx);
    crate::fixed::lemma_fxm_sq_bounds(vy);
    crate::fixed::lemma_fxm_sq_bounds(vz);
    // the exact squared magnitude brackets the truncated one
    assert(vx * vx + vy * vy + vz * vz < 65536 * s + 3 * 65536);
    assert(65536 * s <= vx * vx + vy * vy + vz * vz);
    // upper bound: the scaled sum is held down by the exact quotients
    assert((f1 + f2 + f3) * (len * len) <= (vx * vx + vy * vy + vz * vz) * 65536)
        by (nonlinear_arith)
        requires
            f1 * (len * len) <= (vx * vx) * 65536,
            f2 * (len * len) <= (vy * vy) * 65536,
            f3 * (len * len) <= (vz * vz) * 65536,
    ;
    assert((f1 + f2 + f3 - 65536) * (len * len) <= 2 * 65536 * len + 3 * 65536 * 65536)
        by (nonlinear_arith)
        requires
            (f1 + f2 + f3) * (len * len) <= (vx * vx + vy * vy + vz * vz) * 65536,
            vx * vx + vy * vy + vz * vz < 65536 * s + 3 * 65536,
            s * 65536 < (len + 1) * (len + 1),
            len >= 1,
            s >= 0,
    ;
    assert(2 * 65536 * len + 3 * 65536 * 65536 <= 801 * (len * len)) by (nonlinear_arith)
        requires
            len >= 4096,
    ;
    assert(f1 + f2 + f3 <= 66337) by (nonlinear_arith)
        requires
            (f1 + f2 + f3 - 65536) * (len * len) <= 801 * (len * len),
            len >= 1,
    ;
    // lower bound: either some component saturated, which alone carries
    // more than one, or every quotient is exact enough
    if crate::fixed::iabs(q1) > 131072 || crate::fixed::iabs(q2) > 131072 || crate::fixed::iabs(q3)
        > 131072 {
        assert(f1 + f2 + f3 >= 262144);
    } else {
        let a1 = crate::fixed::iabs(q1);
        let a2 = crate::fixed::iabs(q2);
        let a3 = crate::fixed::iabs(q3);
        assert(a1 * a1 == q1 * q1 && a2 * a2 == q2 * q2 && a3 * a3 == q3 * q3)
            by (nonlinear_arith)
            requires
                a1 == (if q1 < 0 {
                    -q1
                } else {
                    q1
                }),
                a2 == (if q2 < 0 {
                    -q2
                } else {
                    q2
                }),
                a3 == (if q3 < 0 {
                    -q3
                } else {
                    q3
                }),
        ;
        assert(((a1 + 1) * (a1 + 1) + (a2 + 1) * (a2 + 1) + (a3 + 1) * (a3 + 1)) * (len * len) >= (
        vx * vx + vy * vy + vz * vz) * (65536 * 65536)) by (nonlinear_arith)
            requires
                (a1 + 1) * (a1 + 1) * (len * len) >= (vx * vx) * (65536 * 65536),
                (a2 + 1) * (a2 + 1) * (len * len) >= (vy * vy) * (65536 * 65536),
                (a3 + 1) * (a3 + 1) * (len * len) >= (vz * vz) * (65536 * 65536),
        ;
        assert((vx * vx + vy * vy + vz * vz) * (65536 * 65536) >= (len * len) * (65536 * 65536))
            by (nonlinear_arith)
            requires
                65536 * s <= vx * vx + vy * vy + vz * vz,
                len * len <= s * 65536,
        ;
        assert((a1 + 1) * (a1 + 1) + (a2 + 1) * (a2 + 1) + (a3 + 1) * (a3 + 1) >= 65536 * 65536)
            by (nonlinear_arith)
            requires
                ((a1 + 1) * (a1 + 1) + (a2 + 1) * (a2 + 1) + (a3 + 1) * (a3 + 1)) * (len * len)
                    >= (len * len) * (65536 * 65536),
                len >= 1,
        ;
        assert(q1 * q1 + q2 * q2 + q3 * q3 >= 65536 * 65536 - 786435) by (nonlinear_arith)
            requires
                (a1 + 1) * (a1 + 1) + (a2 + 1) * (a2 + 1) + (a3 + 1) * (a3 + 1) >= 65536 * 65536,
                a1 * a1 == q1 * q1,
                a2 * a2 == q2 * q2,
                a3 * a3 == q3 * q3,
                0 <= a1 <= 131072,
                0 <= a2 <= 131072,
                0 <= a3 <= 131072,
        ;
        assert(65536 * (f1 + f2 + f3) > q1 * q1 + q2 * q2 + q3 * q3 - 3 * 65536);
        assert(f1 + f2 + f3 >= 65520);
    }
}

/// Normalizing a truncated cross product yields a direction nearly
/// orthogonal to the second factor: the exact cross is orthogonal, and
/// the roundings of the cross components, of the normalization and of the
/// dot itself move that zero by at most a few hundred raw units.
pub proof fn lemma_unit_cross_orthogonal(a: Vec3, b: Vec3)
    requires
        vec_in_b(a, 0x4000000),
        vec_in_b(b, UNIT_LIMIT as int),
        l2s_spec(cross_spec(a, b)) >= 256,
    ensures
        -256 <= dot_spec(unit_spec(cross_spec(a, b)), b) <= 256,
{
    let ax = a.x as int;
    let ay = a.y as int;
    let az = a.z as int;
    let bx = b.x as int;
    let by = b.y as int;
    let bz = b.z as int;
    let tx = ay * bz - az * by;
    let ty = az * bx - ax * bz;
    let tz = ax * by - ay * bx;
    crate::fixed::lemma_fxm_err(ay, bz);
    crate::fixed::lemma_fxm_err(az, by);
    crate::fixed::lemma_fxm_err(az, bx);
    crate::fixed::lemma_fxm_err(ax, bz);
    crate::fixed::lemma_fxm_err(ax, by);
    crate::fixed::lemma_fxm_err(ay, bx);
    lemma_fxm_abs(ay, bz, 0x4000000, 131072);
    lemma_fxm_abs(az, by, 0x4000000, 131072);
    lemma_fxm_abs(az, bx, 0x4000000, 131072);
    lemma_fxm_abs(ax, bz, 0x4000000, 131072);
    lemma_fxm_abs(ax, by, 0x4000000, 131072);
    lemma_fxm_abs(ay, bx, 0x4000000, 131072);
    let c = cross_spec(a, b);
    let cx = c.x as int;
    let cy = c.y as int;
    let cz = c.z as int;
    assert(vec_in_b(c, OP_LIMIT as int));
    assert(tx * bx + ty * by + tz * bz == 0) by (nonlinear_arith)
        requires
            tx == ay * bz - az * by,
            ty == az * bx - ax * bz,
            tz == ax * by - ay * bx,
    ;
    assert(-2 * 65536 < 65536 * cx - tx < 2 * 65536);
    assert(-2 * 65536 < 65536 * cy - ty < 2 * 65536);
    assert(-2 * 65536 < 65536 * cz - tz < 2 * 65536);
    assert(-0x400000000 <= (65536 * cx - tx) * bx <= 0x400000000) by (nonlinear_arith)
        requires
            -2 * 65536 < 65536 * cx - tx < 2 * 65536,
            -131072 <= bx <= 131072,
    ;
    assert(-0x400000000 <= (65536 * cy - ty) * by <= 0x400000000) by (nonlinear_arith)
        requires
            -2 * 65536 < 65536 * cy - ty < 2 * 65536,
            -131072 <= by <= 131072,
    ;
    assert(-0x400000000 <= (65536 * cz - tz) * bz <= 0x400000000) by (nonlinear_arith)
        requires
            -2 * 65536 < 65536 * cz - tz < 2 * 65536,
            -131072 <= bz <= 131072,
    ;
    let sb = cx * bx + cy * by + cz * bz;
    assert(65536 * sb == (65536 * cx - tx) * bx + (65536 * cy - ty) * by + (65536 * cz - tz) * bz
        + (tx * bx + ty * by + tz * bz)) by (nonlinear_arith)
        requires
            sb == cx * bx + cy * by + cz * bz,
    ;
    assert(-786432 <= sb <= 786432);
    let s0 = l2s_spec(c);
    crate::fixed::lemma_sqrt_exists(s0 * 65536);
    let len = sqrt_val(s0 * 65536);
    assert(len >= 4096) by (nonlinear_arith)
        requires
            s0 * 65536 < (len + 1) * (len + 1),
            s0 >= 256,
            len >= 0,
    ;
    let d1 = fxd(cx, len);
    let d2 = fxd(cy, len);
    let d3 = fxd(cz, len);
    let w1 = sclamp(d1, -131072, 131072);
    let w2 = sclamp(d2, -131072, 131072);
    let w3 = sclamp(d3, -131072, 131072);
    lemma_unit_vector_near_unit(c);
    lemma_unit_comp(cx, len);
    lemma_unit_comp(cy, len);
    lemma_unit_comp(cz, len);
    let u = unit_spec(c);
    assert(u.x as int == w1 && u.y as int == w2 && u.z as int == w3);
    assert(l2s_spec(u) == fxm(w1, w1) + fxm(w2, w2) + fxm(w3, w3));
    assert(crate::fixed::iabs(d1) <= 131072 && crate::fixed::iabs(d2) <= 131072
        && crate::fixed::iabs(d3) <= 131072);
    assert(u.x as int == d1 && u.y as int == d2 && u.z as int == d3);
    crate::fixed::lemma_fxd_err(cx, len);
    crate::fixed::lemma_fxd_err(cy, len);
    crate::fixed::lemma_fxd_err(cz, len);
    assert(-(len * 131072) <= (len * d1 - 65536 * cx) * bx <= len * 131072) by (nonlinear_arith)
        requires
            -len < len * d1 - 65536 * cx < len,
            -131072 <= bx <= 131072,
            len >= 1,
    ;
    assert(-(len * 131072) <= (len * d2 - 65536 * cy) * by <= len * 131072) by (nonlinear_arith)
        requires
            -len < len * d2 - 65536 * cy < len,
            -131072 <= by <= 131072,
            len >= 1,
    ;
    assert(-(len * 131072) <= (len * d3 - 65536 * cz) * bz <= len * 131072) by (nonlinear_arith)
        requires
            -len < len * d3 - 65536 * cz < len,
            -131072 <= bz <= 131072,
            len >= 1,
    ;
    let sd = d1 * bx + d2 * by + d3 * bz;
    assert(len * (d1 * bx) == (len * d1 - 65536 * cx) * bx + 65536 * (cx * bx))
        by (nonlinear_arith);
    assert(len * (d2 * by) == (len * d2 - 65536 * cy) * by + 65536 * (cy * by))
        by (nonlinear_arith);
    assert(len * (d3 * bz) == (len * d3 - 65536 * cz) * bz + 65536 * (cz * bz))
        by (nonlinear_arith);
    assert(len * sd == len * (d1 * bx) + len * (d2 * by) + len * (d3 * bz)) by (nonlinear_arith)
        requires
            sd == d1 * bx + d2 * by + d3 * bz,
    ;
    assert(65536 * sb == 65536 * (cx * bx) + 65536 * (cy * by) + 65536 * (cz * bz))
        by (nonlinear_arith)
        requires
            sb == cx * bx + cy * by + cz * bz,
    ;
    assert(len * sd == (len * d1 - 65536 * cx) * bx + (len * d2 - 65536 * cy) * by + (len * d3
        - 65536 * cz) * bz + 65536 * sb);
    assert(-12976128 <= sd <= 12976128) by (nonlinear_arith)
        requires
            -(3 * (len * 131072) + 65536 * 786432) <= len * sd <= 3 * (len * 131072) + 65536
                * 786432,
            len >= 4096,
    ;
    crate::fixed::lemma_fxm_err(d1, bx);
    crate::fixed::lemma_fxm_err(d2, by);
    crate::fixed::lemma_fxm_err(d3, bz);
    assert(dot_spec(u, b) == fxm(d1, bx) + fxm(d2, by) + fxm(d3, bz));
    assert(-256 <= dot_spec(u, b) <= 256);
}

/// A truncated cross product of unit-window factors is nearly orthogonal
/// to both factors: the exact cross is orthogonal, and each truncated
/// component moves the dot by under one raw unit.
pub proof fn lemma_cross_near_orthogonal(a: Vec3, b: Vec3)
    requires
        vec_in_b(a, UNIT_LIMIT as int),
        vec_in_b(b, UNIT_LIMIT as int),
    ensures
        -16 <= dot_spec(cross_spec(a, b), a) <= 16,
        -16 <= dot_spec(cross_spec(a, b), b) <= 16,
{
    let ax = a.x as int;
    let ay = a.y as int;
    let az = a.z as int;
    let bx = b.x as int;
    let by = b.y as int;
    let bz = b.z as int;
    let tx = ay * bz - az * by;
    let ty = az * bx - ax * bz;
    let tz = ax * by - ay * bx;
    crate::fixed::lemma_fxm_err(ay, bz);
    crate::fixed::lemma_fxm_err(az, by);
    crate::fixed::lemma_fxm_err(az, bx);
    crate::fixed::lemma_fxm_err(ax, bz);
    crate::fixed::lemma_fxm_err(ax, by);
    crate::fixed::lemma_fxm_err(ay, bx);
    lemma_fxm_abs(ay, bz, 131072, 131072);
    lemma_fxm_abs(az, by, 131072, 131072);
    lemma_fxm_abs(az, bx, 131072, 131072);
    lemma_fxm_abs(ax, bz, 131072, 131072);
    lemma_fxm_abs(ax, by, 131072, 131072);
    lemma_fxm_abs(ay, bx, 131072, 131072);
    let c = cross_spec(a, b);
    let cx = c.x as int;
    let cy = c.y as int;
    let cz = c.z as int;
    assert(tx * ax + ty * ay + tz * az == 0) by (nonlinear_arith)
        requires
            tx == ay * bz - az * by,
            ty == az * bx - ax * bz,
            tz == ax * by - ay * bx,
    ;
    assert(tx * bx + ty * by + tz * bz == 0) by (nonlinear_arith)
        requires
            tx == ay * bz - az * by,
            ty == az * bx - ax * bz,
            tz == ax * by - ay * bx,
    ;
    assert(-2 * 65536 < 65536 * cx - tx < 2 * 65536);
    assert(-2 * 65536 < 65536 * cy - ty < 2 * 65536);
    assert(-2 * 65536 < 65536 * cz - tz < 2 * 65536);
    assert(-0x400000000 <= (65536 * cx - tx) * ax <= 0x400000000 && -0x400000000 <= (65536 * cx
        - tx) * bx <= 0x400000000) by (nonlinear_arith)
        requires
            -2 * 65536 < 65536 * cx - tx < 2 * 65536,
            -131072 <= ax <= 131072,
            -131072 <= bx <= 131072,
    ;
    assert(-0x400000000 <= (65536 * cy - ty) * ay <= 0x400000000 && -0x400000000 <= (65536 * cy
        - ty) * by <= 0x400000000) by (nonlinear_arith)
        requires
            -2 * 65536 < 65536 * cy - ty < 2 * 65536,
            -131072 <= ay <= 131072,
            -131072 <= by <= 131072,
    ;
    assert(-0x400000000 <= (65536 * cz - tz) * az <= 0x400000000 && -0x400000000 <= (65536 * cz
        - tz) * bz <= 0x400000000) by (nonlinear_arith)
        requires
            -2 * 65536 < 65536 * cz - tz < 2 * 65536,
            -131072 <= az <= 131072,
            -131072 <= bz <= 131072,
    ;
    let sa = cx * ax + cy * ay + cz * az;
    let sb = cx * bx + cy * by + cz * bz;
    assert(65536 * sa == (65536 * cx - tx) * ax + (65536 * cy - ty) * ay + (65536 * cz - tz) * az
        + (tx * ax + ty * ay + tz * az)) by (nonlinear_arith)
        requires
            sa == cx * ax + cy * ay + cz * az,
    ;
    assert(65536 * sb == (65536 * cx - tx) * bx + (65536 * cy - ty) * by + (65536 * cz - tz) * bz
        + (tx * bx + ty * by + tz * bz)) by (nonlinear_arith)
        requires
            sb == cx * bx + cy * by + cz * bz,
    ;
    assert(-786432 <= sa <= 786432 && -786432 <= sb <= 786432);
    crate::fixed::lemma_fxm_err(cx, ax);
    crate::fixed::lemma_fxm_err(cy, ay);
    crate::fixed::lemma_fxm_err(cz, az);
    crate::fixed::lemma_fxm_err(cx, bx);
    crate::fixed::lemma_fxm_err(cy, by);
    crate::fixed::lemma_fxm_err(cz, bz);
    assert(dot_spec(c, a) == fxm(cx, ax) + fxm(cy, ay) + fxm(cz, az));
    assert(dot_spec(c, b) == fxm(cx, bx) + fxm(cy, by) + fxm(cz, bz));
    assert(-16 <= dot_spec(c, a) <= 16 && -16 <= dot_spec(c, b) <= 16);
}

/// Reflecting the reversal of a unit normal about that normal gives the
/// normal back exactly: for any n of unit squared magnitude in the unit
/// window, reflect(-n, n) == n, with no rounding loss.
pub proof fn lemma_reflect_opposite(n: Vec3)
    requires
        vec_in_b(n, UNIT_LIMIT as int),
        l2s_spec(n) == 65536,
    ensures
        reflect_spec(vneg(n), n) == n,
{
    crate::fixed::lemma_fxm_neg(n.x as int, n.x as int);
    crate::fixed::lemma_fxm_neg(n.y as int, n.y as int);
    crate::fixed::lemma_fxm_neg(n.z as int, n.z as int);
    assert(dot_spec(vneg(n), n) == -65536);
    crate::fixed::lemma_fxm_neg(131072, n.x as int);
    crate::fixed::lemma_fxm_neg(131072, n.y as int);
    crate::fixed::lemma_fxm_neg(131072, n.z as int);
    crate::fixed::lemma_fxm_double(n.x as int);
    crate::fixed::lemma_fxm_double(n.y as int);
    crate::fixed::lemma_fxm_double(n.z as int);
}

} // verus!
