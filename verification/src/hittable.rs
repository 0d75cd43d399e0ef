//! Scene geometry: the hit record, the sphere primitive with its quadratic
//! root mirror, and the aggregate that resolves the nearest hit.
use vstd::prelude::*;

use crate::fixed::{fx_div, fx_mul, fx_sqrt, fxd, fxm, lemma_fxm_abs, lemma_prod_ok, sqrt_val};
use crate::material::MaterialKind;
use crate::ray::{at_spec, Ray};
use crate::utilities;
use crate::vector::{
    dot, dot_spec, l2s_spec, vclamp, vdiv, vec_in_b, vneg, vsub, Point3, Vec3, DIR_LIMIT,
    OP_LIMIT, POS_LIMIT, UNIT_LIMIT,
};

verus! {

/// Magnitude bound for ray parameters handed to an intersection query.
pub const T_LIMIT: i128 = 2147483648;

#[derive(Clone, Copy, Debug, PartialEq, Eq, Structural)]
pub struct HitRecord {
    pub p: Point3,
    pub normal: Vec3,
    pub t: i128,
    pub front_face: bool,
    pub mat: MaterialKind,
}

impl HitRecord {
    pub fn new() -> (r: Self)
        ensures
            r.p == (Vec3 { x: 0, y: 0, z: 0 }),
            r.normal == (Vec3 { x: 0, y: 0, z: 0 }),
            r.t == 0,
            r.front_face == false,
            r.mat == MaterialKind::Lambertian(
                crate::material::Lambertian { albedo: Vec3 { x: 0, y: 0, z: 0 } },
            ),
    {
        Self {
            p: Vec3::new(0, 0, 0),
            normal: Vec3::new(0, 0, 0),
            t: 0,
            front_face: false,
            mat: MaterialKind::Lambertian(
                crate::material::Lambertian::new(Vec3::new(0, 0, 0)),
            ),
        }
    }

    pub fn set_face_normal(&mut self, r: &Ray, outward_normal: Vec3)
        requires
            vec_in_b(r.dir, OP_LIMIT as int),
            vec_in_b(outward_normal, OP_LIMIT as int),
        ensures
            final(self).front_face == (dot_spec(r.dir, outward_normal) < 0),
            final(self).normal == (if dot_spec(r.dir, outward_normal) < 0 {
                outward_normal
            } else {
                vneg(outward_normal)
            }),
            final(self).p == old(self).p,
            final(self).t == old(self).t,
            final(self).mat == old(self).mat,
    {
        self.front_face = dot(&r.dir(), &outward_normal) < 0;
        if self.front_face {
            self.normal = outward_normal;
        } else {
            self.normal = outward_normal.neg();
        }
    }
}

pub trait Hittable {
    spec fn hit_req(&self, r: Ray, t_min: i128, t_max: i128) -> bool;

    spec fn hit_ens(&self, r: Ray, t_min: i128, t_max: i128, res: Option<HitRecord>) -> bool;

    fn hit(&self, r: &Ray, t_min: i128, t_max: i128) -> (res: Option<HitRecord>)
        requires
            self.hit_req(*r, t_min, t_max),
        ensures
            self.hit_ens(*r, t_min, t_max, res),
    ;
}

#[derive(Clone, Copy, Debug, PartialEq, Eq, Structural)]
pub struct Sphere {
    pub center: Point3,
    pub radius: i128,
    pub mat: MaterialKind,
}

impl Sphere {
    pub fn new(center: Point3, radius: i128, mat: MaterialKind) -> (r: Self)
        ensures
            r.center == center,
            r.radius == radius,
            r.mat == mat,
    {
        Self { center, radius, mat }
    }
}

/// A sphere the tracer can work with: a representable center, a positive
/// representable radius and a well-formed material.
pub open spec fn sphere_wf(s: Sphere) -> bool {
    vec_in_b(s.center, POS_LIMIT as int) && 0 < s.radius <= POS_LIMIT && s.mat.valid()
}

/// Rays and parameter windows an intersection query accepts.
pub open spec fn hit_input_ok(r: Ray, t_min: i128, t_max: i128) -> bool {
    vec_in_b(r.origin, POS_LIMIT as int) && vec_in_b(r.dir, DIR_LIMIT as int) && -T_LIMIT <= t_min
        <= T_LIMIT && -T_LIMIT <= t_max <= T_LIMIT
}

pub open spec fn sph_oc(s: Sphere, r: Ray) -> Vec3 {
    vsub(r.origin, s.center)
}

pub open spec fn sph_a(r: Ray) -> int {
    l2s_spec(r.dir)
}

pub open spec fn sph_half_b(s: Sphere, r: Ray) -> int {
    dot_spec(sph_oc(s, r), r.dir)
}

pub open spec fn sph_c(s: Sphere, r: Ray) -> int {
    l2s_spec(sph_oc(s, r)) - fxm(s.radius as int, s.radius as int)
}

pub open spec fn sph_disc(s: Sphere, r: Ray) -> int {
    fxm(sph_half_b(s, r), sph_half_b(s, r)) - fxm(sph_a(r), sph_c(s, r))
}

pub open spec fn sph_sqrt_d(s: Sphere, r: Ray) -> int {
    sqrt_val(sph_disc(s, r) * 65536)
}

/// The nearer quadratic root along the ray.
pub open spec fn sph_root1(s: Sphere, r: Ray) -> int {
    fxd(-sph_half_b(s, r) - sph_sqrt_d(s, r), sph_a(r))
}

/// The farther quadratic root along the ray.
pub open spec fn sph_root2(s: Sphere, r: Ray) -> int {
    fxd(-sph_half_b(s, r) + sph_sqrt_d(s, r), sph_a(r))
}

/// The ray parameter a sphere intersection reports: the nearer root when it
/// lies strictly inside the window, else the farther, else nothing. A ray
/// whose direction has zero squared magnitude hits nothing.
pub open spec fn sph_root(s: Sphere, r: Ray, t_min: int, t_max: int) -> Option<int> {
    if sph_disc(s, r) > 0 && sph_a(r) > 0 {
        if t_min < sph_root1(s, r) && sph_root1(s, r) < t_max {
            Some(sph_root1(s, r))
        } else if t_min < sph_root2(s, r) && sph_root2(s, r) < t_max {
            Some(sph_root2(s, r))
        } else {
            None
        }
    } else {
        None
    }
}

/// The reported hit point: the ray evaluated at the root, saturated into
/// the position window (inert for scenes within the documented bounds).
pub open spec fn sph_point(r: Ray, t: int) -> Point3 {
    vclamp(at_spec(r, t), POS_LIMIT as int)
}

/// The outward normal at the hit point, saturated into the unit window.
pub open spec fn sph_outward(s: Sphere, r: Ray, t: int) -> Vec3 {
    vclamp(vdiv(vsub(sph_point(r, t), s.center), s.radius as int), UNIT_LIMIT as int)
}

/// The hit record a sphere reports at a root, as a value.
pub open spec fn sph_record(s: Sphere, r: Ray, t: int) -> HitRecord {
    let outward = sph_outward(s, r, t);
    HitRecord {
        p: sph_point(r, t),
        normal: if dot_spec(r.dir, outward) < 0 {
            outward
        } else {
            vneg(outward)
        },
        t: t as i128,
        front_face: dot_spec(r.dir, outward) < 0,
        mat: s.mat,
    }
}

/// Every field of a sphere's hit record as a function of the root.
pub open spec fn sphere_rec_ok(s: Sphere, r: Ray, t: int, rec: HitRecord) -> bool {
    let outward = sph_outward(s, r, t);
    rec.t as int == t && rec.p == sph_point(r, t) && rec.front_face == (dot_spec(r.dir, outward)
        < 0) && rec.normal == (if dot_spec(r.dir, outward) < 0 {
        outward
    } else {
        vneg(outward)
    }) && rec.mat == s.mat
}

impl Hittable for Sphere {
    open spec fn hit_req(&self, r: Ray, t_min: i128, t_max: i128) -> bool {
        sphere_wf(*self) && hit_input_ok(r, t_min, t_max)
    }

    open spec fn hit_ens(&self, r: Ray, t_min: i128, t_max: i128, res: Option<HitRecord>) -> bool {
        match res {
            None => sph_root(*self, r, t_min as int, t_max as int) is None,
            Some(rec) => sph_root(*self, r, t_min as int, t_max as int) == Some(rec.t as int)
                && t_min < rec.t && rec.t < t_max && sphere_rec_ok(*self, r, rec.t as int, rec)
                && vec_in_b(rec.p, POS_LIMIT as int) && vec_in_b(rec.normal, UNIT_LIMIT as int),
        }
    }

    #[verifier::rlimit(60)]
    fn hit(&self, r: &Ray, t_min: i128, t_max: i128) -> (res: Option<HitRecord>) {
        let oc: Vec3 = r.origin().sub(self.center);
        proof {
            lemma_fxm_abs(r.dir.x as int, r.dir.x as int, DIR_LIMIT as int, DIR_LIMIT as int);
            lemma_fxm_abs(r.dir.y as int, r.dir.y as int, DIR_LIMIT as int, DIR_LIMIT as int);
            lemma_fxm_abs(r.dir.z as int, r.dir.z as int, DIR_LIMIT as int, DIR_LIMIT as int);
            lemma_fxm_abs(oc.x as int, r.dir.x as int, 0x80000000, DIR_LIMIT as int);
            lemma_fxm_abs(oc.y as int, r.dir.y as int, 0x80000000, DIR_LIMIT as int);
            lemma_fxm_abs(oc.z as int, r.dir.z as int, 0x80000000, DIR_LIMIT as int);
            lemma_fxm_abs(oc.x as int, oc.x as int, 0x80000000, 0x80000000);
            lemma_fxm_abs(oc.y as int, oc.y as int, 0x80000000, 0x80000000);
            lemma_fxm_abs(oc.z as int, oc.z as int, 0x80000000, 0x80000000);
            lemma_prod_ok(self.radius as int, self.radius as int, POS_LIMIT as int, POS_LIMIT as int);
            lemma_fxm_abs(self.radius as int, self.radius as int, POS_LIMIT as int, POS_LIMIT as int);
        }
        let a: i128 = r.dir().l2_squared();
        let half_b: i128 = dot(&oc, &r.dir());
        let c: i128 = oc.l2_squared() - fx_mul(self.radius, self.radius);
        proof {
            lemma_prod_ok(half_b as int, half_b as int, 0x4000000000000000, 0x4000000000000000);
            lemma_fxm_abs(half_b as int, half_b as int, 0x4000000000000000, 0x4000000000000000);
            lemma_prod_ok(a as int, c as int, 0x10000000000000000000, 0x2000000000000);
            lemma_fxm_abs(a as int, c as int, 0x10000000000000000000, 0x2000000000000);
        }
        let discriminant: i128 = fx_mul(half_b, half_b) - fx_mul(a, c);
        if discriminant > 0 && a > 0 {
            let root: i128 = fx_sqrt(discriminant);
            proof {
                assert(root as int <= 0x10000000000000000) by (nonlinear_arith)
                    requires
                        (root as int) * (root as int) <= (discriminant as int) * 65536,
                        discriminant as int <= 0x4000000000000000000000000000,
                        root >= 0,
                ;
            }
            let temp: i128 = fx_div(-half_b - root, a);
            if temp < t_max && temp > t_min {
                proof {
                    lemma_fxm_abs(temp as int, r.dir.x as int, T_LIMIT as int, DIR_LIMIT as int);
                    lemma_fxm_abs(temp as int, r.dir.y as int, T_LIMIT as int, DIR_LIMIT as int);
                    lemma_fxm_abs(temp as int, r.dir.z as int, T_LIMIT as int, DIR_LIMIT as int);
                }
                let mut rec = HitRecord::new();
                rec.t = temp;
                let pr = r.at(temp);
                rec.p = Vec3::new(
                    utilities::clamp(pr.x, -POS_LIMIT, POS_LIMIT),
                    utilities::clamp(pr.y, -POS_LIMIT, POS_LIMIT),
                    utilities::clamp(pr.z, -POS_LIMIT, POS_LIMIT),
                );
                let outward = rec.p.sub(self.center).div_scalar(self.radius);
                let outward_cl = Vec3::new(
                    utilities::clamp(outward.x, -UNIT_LIMIT, UNIT_LIMIT),
                    utilities::clamp(outward.y, -UNIT_LIMIT, UNIT_LIMIT),
                    utilities::clamp(outward.z, -UNIT_LIMIT, UNIT_LIMIT),
                );
                rec.set_face_normal(r, outward_cl);
                rec.mat = self.mat;
                return Some(rec);
            }
            let temp: i128 = fx_div(-half_b + root, a);
            if temp < t_max && temp > t_min {
                proof {
                    lemma_fxm_abs(temp as int, r.dir.x as int, T_LIMIT as int, DIR_LIMIT as int);
                    lemma_fxm_abs(temp as int, r.dir.y as int, T_LIMIT as int, DIR_LIMIT as int);
                    lemma_fxm_abs(temp as int, r.dir.z as int, T_LIMIT as int, DIR_LIMIT as int);
                }
                let mut rec = HitRecord::new();
                rec.t = temp;
                let pr = r.at(temp);
                rec.p = Vec3::new(
                    utilities::clamp(pr.x, -POS_LIMIT, POS_LIMIT),
                    utilities::clamp(pr.y, -POS_LIMIT, POS_LIMIT),
                    utilities::clamp(pr.z, -POS_LIMIT, POS_LIMIT),
                );
                let outward = rec.p.sub(self.center).div_scalar(self.radius);
                let outward_cl = Vec3::new(
                    utilities::clamp(outward.x, -UNIT_LIMIT, UNIT_LIMIT),
                    utilities::clamp(outward.y, -UNIT_LIMIT, UNIT_LIMIT),
                    utilities::clamp(outward.z, -UNIT_LIMIT, UNIT_LIMIT),
                );
                rec.set_face_normal(r, outward_cl);
                rec.mat = self.mat;
                return Some(rec);
            }
        }
        None
    }
}

#[derive(Clone, Debug)]
pub struct HittableList {
    pub objects: Vec<Sphere>,
}

/// Every primitive of the list is well formed.
pub open spec fn list_wf(objs: Seq<Sphere>) -> bool {
    forall|i: int| 0 <= i < objs.len() ==> sphere_wf(#[trigger] objs[i])
}

/// The winning hit over a prefix-ordered walk of the list: each primitive
/// is queried with the window shrunk to the best parameter found so far,
/// exactly as the aggregate's loop does. The result names the index of the
/// winning primitive and the winning parameter.
pub open spec fn list_best(objs: Seq<Sphere>, r: Ray, t_min: int, t_max: int) -> Option<
    (int, int),
>
    decreases objs.len(),
{
    if objs.len() == 0 {
        None
    } else {
        let pre = list_best(objs.drop_last(), r, t_min, t_max);
        let cur_max = match pre {
            Some(p) => p.1,
            None => t_max,
        };
        match sph_root(objs.last(), r, t_min, cur_max) {
            Some(t) => Some((objs.len() - 1, t)),
            None => pre,
        }
    }
}

/// The saturated outward normal is near-unit whenever the reported hit
/// point lies near the sphere's surface: for a radius of at least 1/16
/// and a squared center offset within 1/256 (relative) of the squared
/// radius, the normal's squared magnitude lies within about one percent
/// of one raw unit. The same band holds for the negation, so it covers
/// the stored normal of either orientation. The nearness hypothesis is
/// exactly what the truncated quadratic root delivers for well-scaled
/// scenes; it is stated rather than derived, since grazing hits of badly
/// scaled spheres can land measurably off the surface.
pub proof fn lemma_outward_near_unit(s: Sphere, r: Ray, t: int)
    requires
        4096 <= s.radius <= POS_LIMIT,
        vec_in_b(s.center, POS_LIMIT as int),
        crate::fixed::iabs(
            l2s_spec(vsub(sph_point(r, t), s.center)) - fxm(s.radius as int, s.radius as int),
        ) <= fxm(s.radius as int, s.radius as int) / 256,
    ensures
        65000 <= l2s_spec(sph_outward(s, r, t)) <= 66600,
        65000 <= l2s_spec(vneg(sph_outward(s, r, t))) <= 66600,
{
    let rr = s.radius as int;
    let big_r = fxm(rr, rr);
    let e = big_r / 256;
    let q = vsub(sph_point(r, t), s.center);
    let qx = q.x as int;
    let qy = q.y as int;
    let qz = q.z as int;
    let s0 = l2s_spec(q);
    let d1 = fxd(qx, rr);
    let d2 = fxd(qy, rr);
    let d3 = fxd(qz, rr);
    let w1 = crate::fixed::sclamp(d1, -131072, 131072);
    let w2 = crate::fixed::sclamp(d2, -131072, 131072);
    let w3 = crate::fixed::sclamp(d3, -131072, 131072);
    crate::vector::lemma_unit_comp(qx, rr);
    crate::vector::lemma_unit_comp(qy, rr);
    crate::vector::lemma_unit_comp(qz, rr);
    crate::fixed::lemma_fxd_abs(qx, rr, 0x80000000);
    crate::fixed::lemma_fxd_abs(qy, rr, 0x80000000);
    crate::fixed::lemma_fxd_abs(qz, rr, 0x80000000);
    let u = sph_outward(s, r, t);
    assert(u.x as int == w1 && u.y as int == w2 && u.z as int == w3);
    let f1 = fxm(w1, w1);
    let f2 = fxm(w2, w2);
    let f3 = fxm(w3, w3);
    assert(l2s_spec(u) == f1 + f2 + f3);
    crate::fixed::lemma_fxm_sq_bounds(qx);
    crate::fixed::lemma_fxm_sq_bounds(qy);
    crate::fixed::lemma_fxm_sq_bounds(qz);
    crate::fixed::lemma_fxm_sq_bounds(rr);
    assert(rr * rr >= 16777216) by (nonlinear_arith)
        requires
            rr >= 4096,
    ;
    assert(256 * e <= big_r && e >= 0) by (nonlinear_arith)
        requires
            e == big_r / 256,
            big_r >= 0,
    ;
    // upper bound: the exact quotients hold the truncated sum down
    assert((f1 + f2 + f3) * (rr * rr) <= (qx * qx + qy * qy + qz * qz) * 65536)
        by (nonlinear_arith)
        requires
            f1 * (rr * rr) <= (qx * qx) * 65536,
            f2 * (rr * rr) <= (qy * qy) * 65536,
            f3 * (rr * rr) <= (qz * qz) * 65536,
    ;
    assert(256 * ((f1 + f2 + f3) * (rr * rr)) <= 17039360 * (rr * rr)) by (nonlinear_arith)
        requires
            (f1 + f2 + f3) * (rr * rr) <= (qx * qx + qy * qy + qz * qz) * 65536,
            qx * qx + qy * qy + qz * qz < 65536 * s0 + 3 * 65536,
            s0 <= big_r + e,
            65536 * big_r <= rr * rr,
            256 * e <= big_r,
            e >= 0,
            rr * rr >= 16777216,
    ;
    assert(f1 + f2 + f3 <= 66600) by (nonlinear_arith)
        requires
            256 * ((f1 + f2 + f3) * (rr * rr)) <= 17039360 * (rr * rr),
            rr * rr >= 16777216,
    ;
    // the saturation is therefore inert: a saturated component alone would
    // already exceed the bound just shown
    assert(crate::fixed::iabs(d1) <= 131072 && crate::fixed::iabs(d2) <= 131072
        && crate::fixed::iabs(d3) <= 131072);
    let a1 = crate::fixed::iabs(d1);
    let a2 = crate::fixed::iabs(d2);
    let a3 = crate::fixed::iabs(d3);
    assert(a1 * a1 == d1 * d1 && a2 * a2 == d2 * d2 && a3 * a3 == d3 * d3) by (nonlinear_arith)
        requires
            a1 == (if d1 < 0 {
                -d1
            } else {
                d1
            }),
            a2 == (if d2 < 0 {
                -d2
            } else {
                d2
            }),
            a3 == (if d3 < 0 {
                -d3
            } else {
                d3
            }),
    ;
    // lower bound: the quotients plus one bound the exact sum from above
    assert(((a1 + 1) * (a1 + 1) + (a2 + 1) * (a2 + 1) + (a3 + 1) * (a3 + 1)) * (rr * rr) >= (qx
        * qx + qy * qy + qz * qz) * (65536 * 65536)) by (nonlinear_arith)
        requires
            (a1 + 1) * (a1 + 1) * (rr * rr) >= (qx * qx) * (65536 * 65536),
            (a2 + 1) * (a2 + 1) * (rr * rr) >= (qy * qy) * (65536 * 65536),
            (a3 + 1) * (a3 + 1) * (rr * rr) >= (qz * qz) * (65536 * 65536),
    ;
    assert(256 * (((a1 + 1) * (a1 + 1) + (a2 + 1) * (a2 + 1) + (a3 + 1) * (a3 + 1)) * (rr * rr))
        >= 254 * (65536 * 65536) * (rr * rr)) by (nonlinear_arith)
        requires
            ((a1 + 1) * (a1 + 1) + (a2 + 1) * (a2 + 1) + (a3 + 1) * (a3 + 1)) * (rr * rr) >= (qx
                * qx + qy * qy + qz * qz) * (65536 * 65536),
            qx * qx + qy * qy + qz * qz >= 65536 * s0,
            s0 >= big_r - e,
            65536 * big_r > rr * rr - 65536,
            65536 * big_r <= rr * rr,
            256 * e <= big_r,
            e >= 0,
            rr * rr >= 16777216,
    ;
    assert((a1 + 1) * (a1 + 1) + (a2 + 1) * (a2 + 1) + (a3 + 1) * (a3 + 1) >= 4261412864)
        by (nonlinear_arith)
        requires
            256 * (((a1 + 1) * (a1 + 1) + (a2 + 1) * (a2 + 1) + (a3 + 1) * (a3 + 1)) * (rr * rr))
                >= 254 * (65536 * 65536) * (rr * rr),
            rr * rr >= 16777216,
    ;
    assert(d1 * d1 + d2 * d2 + d3 * d3 >= 4261412864 - 786435) by (nonlinear_arith)
        requires
            (a1 + 1) * (a1 + 1) + (a2 + 1) * (a2 + 1) + (a3 + 1) * (a3 + 1) >= 4261412864,
            a1 * a1 == d1 * d1,
            a2 * a2 == d2 * d2,
            a3 * a3 == d3 * d3,
            0 <= a1 <= 131072,
            0 <= a2 <= 131072,
            0 <= a3 <= 131072,
    ;
    assert(65536 * (f1 + f2 + f3) > d1 * d1 + d2 * d2 + d3 * d3 - 3 * 65536);
    assert(f1 + f2 + f3 >= 65000);
    // the negated normal has the same squared magnitude
    crate::fixed::lemma_fxm_neg(w1, w1);
    crate::fixed::lemma_fxm_neg(-w1, w1);
    crate::fixed::lemma_fxm_neg(w2, w2);
    crate::fixed::lemma_fxm_neg(-w2, w2);
    crate::fixed::lemma_fxm_neg(w3, w3);
    crate::fixed::lemma_fxm_neg(-w3, w3);
    assert(l2s_spec(vneg(u)) == f1 + f2 + f3);
}

/// With a positive discriminant the nearer root never exceeds the farther.
pub proof fn lemma_sph_roots_ordered(s: Sphere, r: Ray)
    requires
        sph_disc(s, r) > 0,
        sph_a(r) > 0,
    ensures
        0 <= sph_sqrt_d(s, r),
        sph_root1(s, r) <= sph_root2(s, r),
{
    crate::fixed::lemma_sqrt_exists(sph_disc(s, r) * 65536);
    crate::fixed::lemma_fxd_mono(
        -sph_half_b(s, r) - sph_sqrt_d(s, r),
        -sph_half_b(s, r) + sph_sqrt_d(s, r),
        sph_a(r),
    );
}

/// Whatever the aggregate reports lies strictly inside the query window.
pub proof fn lemma_list_best_in_window(objs: Seq<Sphere>, r: Ray, t_min: int, t_max: int)
    ensures
        match list_best(objs, r, t_min, t_max) {
            Some(p) => 0 <= p.0 < objs.len() && t_min < p.1 && p.1 < t_max,
            None => true,
        },
    decreases objs.len(),
{
    if objs.len() > 0 {
        lemma_list_best_in_window(objs.drop_last(), r, t_min, t_max);
    }
}

/// The aggregate resolves the nearest hit: a ray that meets any primitive
/// of the list inside the window gets a result, and the result's parameter
/// is no larger than that primitive's own — whatever the insertion order.
pub proof fn lemma_list_best_is_min(
    objs: Seq<Sphere>,
    r: Ray,
    t_min: int,
    t_max: int,
    i: int,
    ti: int,
)
    requires
        0 <= i < objs.len(),
        sph_root(objs[i], r, t_min, t_max) == Some(ti),
    ensures
        match list_best(objs, r, t_min, t_max) {
            Some(p) => p.1 <= ti,
            None => false,
        },
    decreases objs.len(),
{
    let pre = list_best(objs.drop_last(), r, t_min, t_max);
    lemma_list_best_in_window(objs.drop_last(), r, t_min, t_max);
    let cur_max: int = match pre {
        Some(p) => p.1,
        None => t_max,
    };
    assert(cur_max <= t_max);
    let s = objs.last();
    if i == objs.len() - 1 {
        assert(s == objs[i]);
        lemma_sph_roots_ordered(s, r);
        match sph_root(s, r, t_min, cur_max) {
            Some(tl) => {
                assert(tl <= ti);
            },
            None => {
                if pre is None {
                    assert(cur_max == t_max);
                    assert(false);
                } else {
                    let tp = cur_max;
                    if ti < tp {
                        if t_min < sph_root1(s, r) && sph_root1(s, r) < t_max {
                            assert(ti == sph_root1(s, r));
                            assert(sph_root(s, r, t_min, cur_max) == Some(ti));
                            assert(false);
                        } else {
                            assert(ti == sph_root2(s, r));
                            assert(sph_root1(s, r) <= t_min || sph_root1(s, r) >= t_max);
                            assert(sph_root1(s, r) <= ti);
                            assert(sph_root1(s, r) < t_max);
                            assert(sph_root1(s, r) <= t_min);
                            assert(sph_root(s, r, t_min, cur_max) == Some(ti));
                            assert(false);
                        }
                    }
                    assert(tp <= ti);
                }
            },
        }
    } else {
        assert(objs.drop_last()[i] == objs[i]);
        lemma_list_best_is_min(objs.drop_last(), r, t_min, t_max, i, ti);
        match sph_root(s, r, t_min, cur_max) {
            Some(tl) => {
                assert(tl < cur_max);
                assert(cur_max <= ti);
            },
            None => {
            },
        }
    }
}

impl HittableList {
    pub fn new() -> (r: Self)
        ensures
            r.objects@.len() == 0,
    {
        Self { objects: Vec::new() }
    }

    pub fn clear(&mut self)
        ensures
            final(self).objects@.len() == 0,
    {
        self.objects.clear();
    }

    pub fn add(&mut self, object: Sphere)
        ensures
            final(self).objects@ == old(self).objects@.push(object),
    {
        self.objects.push(object)
    }
}

impl Hittable for HittableList {
    open spec fn hit_req(&self, r: Ray, t_min: i128, t_max: i128) -> bool {
        list_wf(self.objects@) && hit_input_ok(r, t_min, t_max)
    }

    open spec fn hit_ens(&self, r: Ray, t_min: i128, t_max: i128, res: Option<HitRecord>) -> bool {
        match res {
            None => list_best(self.objects@, r, t_min as int, t_max as int) is None,
            Some(rec) => match list_best(self.objects@, r, t_min as int, t_max as int) {
                Some(p) => p.1 == rec.t as int && 0 <= p.0 < self.objects@.len() && sphere_rec_ok(
                    self.objects@[p.0],
                    r,
                    p.1,
                    rec,
                ) && t_min < rec.t && rec.t < t_max && vec_in_b(rec.p, POS_LIMIT as int)
                    && vec_in_b(rec.normal, UNIT_LIMIT as int),
                None => false,
            },
        }
    }

    fn hit(&self, r: &Ray, t_min: i128, t_max: i128) -> (res: Option<HitRecord>) {
        let mut closest_so_far: i128 = t_max;
        let mut temp_rec: Option<HitRecord> = None;
        let mut idx: usize = 0;
        let mut gidx: Ghost<int> = Ghost(0);
        while idx < self.objects.len()
            invariant
                0 <= idx <= self.objects@.len(),
                list_wf(self.objects@),
                hit_input_ok(*r, t_min, t_max),
                match temp_rec {
                    None => list_best(self.objects@.take(idx as int), *r, t_min as int, t_max as int)
                        is None && closest_so_far == t_max,
                    Some(rec) => list_best(
                        self.objects@.take(idx as int),
                        *r,
                        t_min as int,
                        t_max as int,
                    ) == Some((gidx@, rec.t as int)) && 0 <= gidx@ < idx && sphere_rec_ok(
                        self.objects@[gidx@],
                        *r,
                        rec.t as int,
                        rec,
                    ) && t_min < rec.t && rec.t < t_max && closest_so_far == rec.t && vec_in_b(
                        rec.p,
                        POS_LIMIT as int,
                    ) && vec_in_b(rec.normal, UNIT_LIMIT as int),
                },
            decreases self.objects@.len() - idx,
        {
            let object = self.objects[idx];
            proof {
                assert(sphere_wf(self.objects@[idx as int]));
            }
            let rec = object.hit(r, t_min, closest_so_far);
            proof {
                assert(self.objects@.take(idx as int + 1).drop_last() =~= self.objects@.take(
                    idx as int,
                ));
                assert(self.objects@.take(idx as int + 1).last() == self.objects@[idx as int]);
            }
            if let Some(x) = rec {
                closest_so_far = x.t;
                temp_rec = Some(x);
                gidx = Ghost(idx as int);
            }
            idx = idx + 1;
        }
        proof {
            assert(self.objects@.take(self.objects@.len() as int) =~= self.objects@);
        }
        temp_rec
    }
}

} // verus!
