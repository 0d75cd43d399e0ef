//! The scattering model: diffuse, fuzzy-specular and dielectric materials.
//! Each material's scatter contract pins the deterministic part of the
//! bounce exactly and quantifies over the random draw it consumed.
use vstd::prelude::*;

use crate::fixed::{
    fx_div, fx_mul, fx_sqrt, fxd, fxm, lemma_fxd_abs, lemma_fxd_frac, lemma_fxd_nonneg,
    lemma_fxm_abs, lemma_fxm_sq_nonneg, lemma_prod_ok, sclamp, sqrt_val,
};
use crate::hittable::HitRecord;
use crate::ray::Ray;
use crate::utilities;
use crate::vector::{
    dot, dot_spec, l2s_spec, random_in_unit_sphere, random_unit_vector, reflect, reflect_spec,
    refract, refract_spec, unit_spec, unit_vector, vadd, vec_in_b, vneg, vscale, Color, Vec3,
    DIR_LIMIT, POS_LIMIT, UNIT_LIMIT,
};

verus! {

/// Components of a color lie in [0, 1].
pub open spec fn color01(c: Color) -> bool {
    0 <= c.x <= 65536 && 0 <= c.y <= 65536 && 0 <= c.z <= 65536
}

/// What every scatter call may assume of the hit it is given.
pub open spec fn scatter_input_ok(r_in: Ray, rec: HitRecord) -> bool {
    vec_in_b(r_in.dir, DIR_LIMIT as int) && vec_in_b(rec.p, POS_LIMIT as int) && vec_in_b(
        rec.normal,
        UNIT_LIMIT as int,
    )
}

/// What every scatter call promises of a produced bounce.
pub open spec fn scatter_output_ok(rec: HitRecord, res: Option<(Color, Ray)>) -> bool {
    match res {
        Some((att, sc)) => color01(att) && sc.origin == rec.p && vec_in_b(
            sc.dir,
            DIR_LIMIT as int,
        ),
        None => true,
    }
}

pub trait Material {
    spec fn scatter_req(&self, r_in: Ray, rec: HitRecord) -> bool;

    spec fn scatter_ens(&self, r_in: Ray, rec: HitRecord, res: Option<(Color, Ray)>) -> bool;

    fn scatter(&self, r_in: &Ray, rec: &HitRecord) -> (res: Option<(Color, Ray)>)
        requires
            self.scatter_req(*r_in, *rec),
        ensures
            self.scatter_ens(*r_in, *rec, res),
            scatter_output_ok(*rec, res),
    ;
}

#[derive(Clone, Copy, Debug, PartialEq, Eq, Structural)]
pub struct Lambertian {
    pub albedo: Color,
}

impl Lambertian {
    pub open spec fn valid(&self) -> bool {
        color01(self.albedo)
    }

    pub fn new(albedo: Color) -> (r: Self)
        ensures
            r.albedo == albedo,
    {
        Self { albedo }
    }

    pub fn default() -> (r: Self)
        ensures
            r.albedo == (Vec3 { x: 0, y: 0, z: 0 }),
    {
        Self { albedo: Vec3::new(0, 0, 0) }
    }
}

impl Material for Lambertian {
    open spec fn scatter_req(&self, r_in: Ray, rec: HitRecord) -> bool {
        self.valid() && scatter_input_ok(r_in, rec)
    }

    /// A diffuse surface always scatters: the attenuation is the albedo and
    /// the bounce leaves the hit point along the normal plus a draw of
    /// near-unit squared magnitude.
    open spec fn scatter_ens(&self, r_in: Ray, rec: HitRecord, res: Option<(Color, Ray)>) -> bool {
        match res {
            Some((att, sc)) => att == self.albedo && sc.origin == rec.p && exists|u: Vec3|
                vec_in_b(u, UNIT_LIMIT as int) && 65024 <= l2s_spec(u) <= 66048 && sc.dir == vadd(
                    rec.normal,
                    u,
                ),
            None => false,
        }
    }

    fn scatter(&self, r_in: &Ray, rec: &HitRecord) -> (res: Option<(Color, Ray)>) {
        let u = random_unit_vector();
        let scatter_direction = rec.normal.add(u);
        proof {
            assert(exists|uu: Vec3|
                vec_in_b(uu, UNIT_LIMIT as int) && 65024 <= l2s_spec(uu) <= 66048
                    && scatter_direction == vadd(rec.normal, uu)) by {
                assert(vec_in_b(u, UNIT_LIMIT as int) && 65024 <= l2s_spec(u) <= 66048
                    && scatter_direction == vadd(rec.normal, u));
            }
        }
        Some((self.albedo, Ray::new(rec.p, scatter_direction)))
    }
}

/// The mirror reflection of vectors in the unit window keeps small
/// components.
pub proof fn lemma_reflect_of_units_bounded(v: Vec3, n: Vec3)
    requires
        vec_in_b(v, UNIT_LIMIT as int),
        vec_in_b(n, UNIT_LIMIT as int),
    ensures
        vec_in_b(reflect_spec(v, n), 0x2000000),
        -0x400000 <= dot_spec(v, n) <= 0x400000,
{
    lemma_fxm_abs(v.x as int, n.x as int, 131072, 131072);
    lemma_fxm_abs(v.y as int, n.y as int, 131072, 131072);
    lemma_fxm_abs(v.z as int, n.z as int, 131072, 131072);
    let d = dot_spec(v, n);
    lemma_fxm_abs(2 * d, n.x as int, 0x800000, 131072);
    lemma_fxm_abs(2 * d, n.y as int, 0x800000, 131072);
    lemma_fxm_abs(2 * d, n.z as int, 0x800000, 131072);
}

#[derive(Clone, Copy, Debug, PartialEq, Eq, Structural)]
pub struct Metal {
    pub fuzz: i128,
    pub albedo: Color,
}

impl Metal {
    pub open spec fn valid(&self) -> bool {
        color01(self.albedo) && 0 <= self.fuzz <= 65536
    }

    pub fn new(albedo: Color, f: i128) -> (r: Self)
        ensures
            r.albedo == albedo,
            r.fuzz as int == sclamp(f as int, 0, 65536),
    {
        let fuzz = utilities::clamp(f, 0, 65536);
        Self { fuzz, albedo }
    }

    pub fn default() -> (r: Self)
        ensures
            r.albedo == (Vec3 { x: 0, y: 0, z: 0 }),
            r.fuzz == 0,
    {
        Self { fuzz: 0, albedo: Vec3::new(0, 0, 0) }
    }
}

impl Material for Metal {
    open spec fn scatter_req(&self, r_in: Ray, rec: HitRecord) -> bool {
        self.valid() && scatter_input_ok(r_in, rec)
    }

    /// The ray is absorbed exactly when the mirror reflection of its unit
    /// direction does not leave the surface; otherwise the bounce is that
    /// reflection perturbed by a fuzz-scaled draw from the unit ball.
    open spec fn scatter_ens(&self, r_in: Ray, rec: HitRecord, res: Option<(Color, Ray)>) -> bool {
        let refl = reflect_spec(unit_spec(r_in.dir), rec.normal);
        match res {
            Some((att, sc)) => dot_spec(refl, rec.normal) > 0 && att == self.albedo && sc.origin
                == rec.p && exists|u: Vec3|
                l2s_spec(u) < 65536 && vec_in_b(u, 65536) && sc.dir == vadd(
                    refl,
                    vscale(self.fuzz as int, u),
                ),
            None => dot_spec(refl, rec.normal) <= 0,
        }
    }

    fn scatter(&self, r_in: &Ray, rec: &HitRecord) -> (res: Option<(Color, Ray)>) {
        let unit_in = unit_vector(r_in.dir());
        let reflected = reflect(&unit_in, &rec.normal);
        proof {
            lemma_reflect_of_units_bounded(unit_in, rec.normal);
        }
        let u = random_in_unit_sphere();
        proof {
            lemma_fxm_abs(self.fuzz as int, u.x as int, 65536, 65536);
            lemma_fxm_abs(self.fuzz as int, u.y as int, 65536, 65536);
            lemma_fxm_abs(self.fuzz as int, u.z as int, 65536, 65536);
        }
        let scattered = Ray::new(rec.p, reflected.add(u.scale(self.fuzz)));
        if dot(&reflected, &rec.normal) > 0 {
            proof {
                assert(exists|uu: Vec3|
                    l2s_spec(uu) < 65536 && vec_in_b(uu, 65536) && scattered.dir == vadd(
                        reflected,
                        vscale(self.fuzz as int, uu),
                    )) by {
                    assert(l2s_spec(u) < 65536 && vec_in_b(u, 65536) && scattered.dir == vadd(
                        reflected,
                        vscale(self.fuzz as int, u),
                    ));
                }
            }
            return Some((self.albedo, scattered));
        }
        None
    }
}

#[derive(Clone, Copy, Debug, PartialEq, Eq, Structural)]
pub struct Dielectric {
    pub ref_idx: i128,
}

impl Dielectric {
    pub open spec fn valid(&self) -> bool {
        1 <= self.ref_idx <= 0x1000000
    }

    pub fn new(ri: i128) -> (r: Self)
        ensures
            r.ref_idx == ri,
    {
        Self { ref_idx: ri }
    }
}

/// Schlick's reflectance approximation, in fixed-point raw units.
pub open spec fn schlick_spec(cosine: int, ref_idx: int) -> int {
    let r0 = fxd(65536 - ref_idx, 65536 + ref_idx);
    let r0s = fxm(r0, r0);
    let p = 65536 - cosine;
    let p2 = fxm(p, p);
    let p4 = fxm(p2, p2);
    let p5 = fxm(p4, p);
    r0s + fxm(65536 - r0s, p5)
}

fn schlick(cosine: i128, ref_idx: i128) -> (r: i128)
    requires
        -0x100000 <= cosine <= 65536,
        1 <= ref_idx <= 0x1000000,
    ensures
        r as int == schlick_spec(cosine as int, ref_idx as int),
{
    proof {
        lemma_fxd_frac(65536 - ref_idx as int, 65536 + ref_idx as int);
    }
    let r0 = fx_div(65536 - ref_idx, 65536 + ref_idx);
    proof {
        lemma_prod_ok(r0 as int, r0 as int, 65536, 65536);
        lemma_fxm_abs(r0 as int, r0 as int, 65536, 65536);
        lemma_fxm_sq_nonneg(r0 as int);
    }
    let r0s = fx_mul(r0, r0);
    let p = 65536 - cosine;
    proof {
        lemma_prod_ok(p as int, p as int, 0x110000, 0x110000);
        lemma_fxm_abs(p as int, p as int, 0x110000, 0x110000);
        lemma_fxm_sq_nonneg(p as int);
    }
    let p2 = fx_mul(p, p);
    proof {
        lemma_prod_ok(p2 as int, p2 as int, 0x1210000, 0x1210000);
        lemma_fxm_abs(p2 as int, p2 as int, 0x1210000, 0x1210000);
        lemma_fxm_sq_nonneg(p2 as int);
    }
    let p4 = fx_mul(p2, p2);
    proof {
        lemma_prod_ok(p4 as int, p as int, 0x146410000, 0x110000);
        lemma_fxm_abs(p4 as int, p as int, 0x146410000, 0x110000);
    }
    let p5 = fx_mul(p4, p);
    proof {
        lemma_prod_ok(65536 - r0s as int, p5 as int, 65536, 0x15B05100000);
    }
    r0s + fx_mul(65536 - r0s, p5)
}

impl Material for Dielectric {
    open spec fn scatter_req(&self, r_in: Ray, rec: HitRecord) -> bool {
        self.valid() && scatter_input_ok(r_in, rec)
    }

    /// A dielectric always scatters with white attenuation. When the
    /// refraction ratio times the sine of the incidence angle exceeds one,
    /// total internal reflection forces the mirror direction; otherwise the
    /// bounce is the mirror direction or the refraction, the choice made by
    /// a reflectance draw.
    open spec fn scatter_ens(&self, r_in: Ray, rec: HitRecord, res: Option<(Color, Ray)>) -> bool {
        let unit_direction = unit_spec(r_in.dir);
        let eta = if rec.front_face {
            fxd(65536, self.ref_idx as int)
        } else {
            self.ref_idx as int
        };
        let d = dot_spec(vneg(unit_direction), rec.normal);
        let cos_theta = if d > 65536 {
            65536
        } else {
            d
        };
        let ks = 65536 - fxm(cos_theta, cos_theta);
        let kc = if ks < 0 {
            0
        } else {
            ks
        };
        let sin_theta = sqrt_val(kc * 65536);
        match res {
            Some((att, sc)) => att == (Vec3 { x: 65536, y: 65536, z: 65536 }) && sc.origin == rec.p
                && (if fxm(eta, sin_theta) > 65536 {
                sc.dir == reflect_spec(unit_direction, rec.normal)
            } else {
                sc.dir == reflect_spec(unit_direction, rec.normal) || sc.dir == refract_spec(
                    unit_direction,
                    rec.normal,
                    eta,
                )
            }),
            None => false,
        }
    }

    fn scatter(&self, r_in: &Ray, rec: &HitRecord) -> (res: Option<(Color, Ray)>) {
        let attenuation = Vec3::new(65536, 65536, 65536);
        proof {
            lemma_fxd_nonneg(65536, self.ref_idx as int);
            lemma_fxd_abs(65536, self.ref_idx as int, 65536);
        }
        let etai_over_etat = if rec.front_face {
            fx_div(65536, self.ref_idx)
        } else {
            self.ref_idx
        };
        let unit_direction = unit_vector(r_in.dir());
        proof {
            lemma_fxm_abs(-unit_direction.x as int, rec.normal.x as int, 131072, 131072);
            lemma_fxm_abs(-unit_direction.y as int, rec.normal.y as int, 131072, 131072);
            lemma_fxm_abs(-unit_direction.z as int, rec.normal.z as int, 131072, 131072);
        }
        let d = dot(&unit_direction.neg(), &rec.normal);
        let cos_theta = if d > 65536 {
            65536
        } else {
            d
        };
        proof {
            lemma_prod_ok(cos_theta as int, cos_theta as int, 0x100000, 0x100000);
            lemma_fxm_abs(cos_theta as int, cos_theta as int, 0x100000, 0x100000);
            lemma_fxm_sq_nonneg(cos_theta as int);
        }
        let ks = 65536 - fx_mul(cos_theta, cos_theta);
        let kc = if ks < 0 {
            0
        } else {
            ks
        };
        let sin_theta = fx_sqrt(kc);
        proof {
            assert(sin_theta as int <= 65536) by (nonlinear_arith)
                requires
                    (sin_theta as int) * (sin_theta as int) <= (kc as int) * 65536,
                    kc <= 65536,
                    sin_theta >= 0,
            ;
            lemma_prod_ok(etai_over_etat as int, sin_theta as int, 0x100000000, 65536);
            lemma_reflect_of_units_bounded(unit_direction, rec.normal);
        }
        if fx_mul(etai_over_etat, sin_theta) > 65536 {
            let reflected = reflect(&unit_direction, &rec.normal);
            let scattered = Ray::new(rec.p, reflected);
            return Some((attenuation, scattered));
        }
        let reflect_prob = schlick(cos_theta, self.ref_idx);
        if utilities::random_double() < reflect_prob {
            let reflected = reflect(&unit_direction, &rec.normal);
            let scattered = Ray::new(rec.p, reflected);
            return Some((attenuation, scattered));
        }
        let refracted = refract(&unit_direction, &rec.normal, etai_over_etat);
        let scattered = Ray::new(rec.p, refracted);
        Some((attenuation, scattered))
    }
}

/// The closed set of materials a scene stores; dispatch is by exhaustive
/// match, as the small variant set favors.
#[derive(Clone, Copy, Debug, PartialEq, Eq, Structural)]
pub enum MaterialKind {
    Lambertian(Lambertian),
    Metal(Metal),
    Dielectric(Dielectric),
}

/// The componentwise ceiling a material's attenuation never exceeds: the
/// albedo for the reflective materials, white for the lossless dielectric.
pub open spec fn attenuation_bound(m: MaterialKind) -> Color {
    match m {
        MaterialKind::Lambertian(l) => l.albedo,
        MaterialKind::Metal(mt) => mt.albedo,
        MaterialKind::Dielectric(_) => Vec3 { x: 65536, y: 65536, z: 65536 },
    }
}

impl MaterialKind {
    pub open spec fn valid(&self) -> bool {
        match *self {
            MaterialKind::Lambertian(m) => m.valid(),
            MaterialKind::Metal(m) => m.valid(),
            MaterialKind::Dielectric(m) => m.valid(),
        }
    }
}

impl Material for MaterialKind {
    open spec fn scatter_req(&self, r_in: Ray, rec: HitRecord) -> bool {
        match *self {
            MaterialKind::Lambertian(m) => m.scatter_req(r_in, rec),
            MaterialKind::Metal(m) => m.scatter_req(r_in, rec),
            MaterialKind::Dielectric(m) => m.scatter_req(r_in, rec),
        }
    }

    open spec fn scatter_ens(&self, r_in: Ray, rec: HitRecord, res: Option<(Color, Ray)>) -> bool {
        match *self {
            MaterialKind::Lambertian(m) => m.scatter_ens(r_in, rec, res),
            MaterialKind::Metal(m) => m.scatter_ens(r_in, rec, res),
            MaterialKind::Dielectric(m) => m.scatter_ens(r_in, rec, res),
        }
    }

    fn scatter(&self, r_in: &Ray, rec: &HitRecord) -> (res: Option<(Color, Ray)>) {
        match self {
            MaterialKind::Lambertian(m) => m.scatter(r_in, rec),
            MaterialKind::Metal(m) => m.scatter(r_in, rec),
            MaterialKind::Dielectric(m) => m.scatter(r_in, rec),
        }
    }
}

} // verus!
