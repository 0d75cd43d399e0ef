//! The thin-lens camera: field of view, aspect ratio, aperture and focus
//! distance are turned into an orthonormal basis and an image plane, and
//! each sample asks for a primary ray through a lens draw.
use vstd::prelude::*;

use crate::fixed::{
    div_nn, fx_mul, fx_tan, fxd, fxm, lemma_fxd_by_ge_one, lemma_fxd_mono, lemma_fxd_nonneg,
    lemma_fxm_abs, lemma_fxm_nonneg, lemma_prod_ok, tan_spec,
};
use crate::ray::Ray;
use crate::utilities;
use crate::utilities::deg_to_rad_spec;
use crate::vector::{
    cross, cross_spec, dot_spec, l2s_spec, random_in_unit_disk, unit_spec, unit_vector, vadd,
    vdiv, vec_in_b, vscale, vsub, Point3, Vec3, DIR_LIMIT, POS_LIMIT, UNIT_LIMIT,
};

verus! {

pub struct Camera {
    pub origin: Point3,
    pub lower_left_corner: Point3,
    pub horizontal: Vec3,
    pub vertical: Vec3,
    pub u: Vec3,
    pub v: Vec3,
    pub w: Vec3,
    pub lens_radius: i128,
}

/// Raw magnitude bound for the seven construction parameters.
pub const CAM_IN_LIMIT: i128 = 0x4000000;

/// Raw bound for a vertical field of view: 170 degrees, low enough that
/// the tangent mirror's saturation at 16 never binds for an admitted
/// field of view.
pub const VFOV_LIMIT: i128 = 11141120;

/// The viewport height spanned by a field of view.
pub open spec fn cam_vh(vfov: int) -> int {
    2 * tan_spec(deg_to_rad_spec(vfov) / 2)
}

/// The viewport width: the height times the aspect ratio.
pub open spec fn cam_vw(vfov: int, aspect_ratio: int) -> int {
    fxm(cam_vh(vfov), aspect_ratio)
}

/// Field bounds that every constructed camera meets and get_ray needs.
pub open spec fn cam_wf(c: Camera) -> bool {
    vec_in_b(c.origin, 0x8000000) && vec_in_b(c.lower_left_corner, 0x80000000000) && vec_in_b(
        c.horizontal,
        0x40000000000,
    ) && vec_in_b(c.vertical, 0x40000000000) && vec_in_b(c.u, UNIT_LIMIT as int) && 65520
        <= l2s_spec(c.u) <= 66337 && vec_in_b(c.v, 0x80000) && 0 <= c.lens_radius <= 0x2000000
}

/// The image-plane offset of a lens draw.
pub open spec fn cam_offset(c: Camera, d: Vec3) -> Vec3 {
    let rd = vscale(c.lens_radius as int, d);
    vadd(vscale(rd.x as int, c.u), vscale(rd.y as int, c.v))
}

/// The direction of the primary ray for normalized image coordinates
/// (s, t) and a lens offset.
pub open spec fn cam_dir(c: Camera, s: int, t: int, off: Vec3) -> Vec3 {
    vsub(
        vsub(
            vadd(vadd(c.lower_left_corner, vscale(s, c.horizontal)), vscale(t, c.vertical)),
            c.origin,
        ),
        off,
    )
}

impl Camera {
    #[verifier::rlimit(100)]
    pub fn new(
        lookfrom: Point3,
        lookat: Point3,
        vup: Vec3,
        vfov: i128,
        aspect_ratio: i128,
        aperture: i128,
        focus_dist: i128,
    ) -> (r: Self)
        requires
            vec_in_b(lookfrom, CAM_IN_LIMIT as int),
            vec_in_b(lookat, CAM_IN_LIMIT as int),
            vec_in_b(vup, CAM_IN_LIMIT as int),
            l2s_spec(vsub(lookfrom, lookat)) >= 256,
            l2s_spec(cross_spec(vup, unit_spec(vsub(lookfrom, lookat)))) >= 256,
            0 < vfov <= VFOV_LIMIT,
            0 < aspect_ratio <= CAM_IN_LIMIT,
            0 <= aperture <= CAM_IN_LIMIT,
            0 < focus_dist <= CAM_IN_LIMIT,
        ensures
            r.origin == lookfrom,
            r.w == unit_spec(vsub(lookfrom, lookat)),
            r.u == unit_spec(cross_spec(vup, r.w)),
            65520 <= l2s_spec(r.w) <= 66337,
            65520 <= l2s_spec(r.u) <= 66337,
            -256 <= dot_spec(r.u, r.w) <= 256,
            r.v == cross_spec(r.w, r.u),
            -16 <= dot_spec(r.v, r.w) <= 16,
            -16 <= dot_spec(r.v, r.u) <= 16,
            r.horizontal == vscale(
                fxm(focus_dist as int, cam_vw(vfov as int, aspect_ratio as int)),
                r.u,
            ),
            r.vertical == vscale(fxm(focus_dist as int, cam_vh(vfov as int)), r.v),
            r.lower_left_corner == vsub(
                vsub(vsub(r.origin, vdiv(r.horizontal, 131072)), vdiv(r.vertical, 131072)),
                vscale(focus_dist as int, r.w),
            ),
            r.lens_radius as int == aperture as int / 2,
            cam_wf(r),
    {
        proof {
            lemma_fxm_nonneg(vfov as int, 205887);
            lemma_fxm_abs(vfov as int, 205887, VFOV_LIMIT as int, 205887);
            lemma_fxd_nonneg(fxm(vfov as int, 205887), 11796480);
            lemma_fxd_mono(fxm(vfov as int, 205887), 35000790, 11796480);
        }
        let theta: i128 = utilities::degrees_to_radians(vfov);
        let half_theta: i128 = div_nn(theta, 2);
        let h: i128 = fx_tan(half_theta);
        let viewport_height: i128 = 2 * h;
        proof {
            lemma_prod_ok(viewport_height as int, aspect_ratio as int, 0x200000, CAM_IN_LIMIT as int);
            lemma_fxm_abs(viewport_height as int, aspect_ratio as int, 0x200000, CAM_IN_LIMIT as int);
        }
        let viewport_width: i128 = fx_mul(viewport_height, aspect_ratio);
        let w = unit_vector(lookfrom.sub(lookat));
        proof {
            crate::vector::lemma_unit_vector_near_unit(vsub(lookfrom, lookat));
            lemma_fxm_abs(vup.y as int, w.z as int, CAM_IN_LIMIT as int, 131072);
            lemma_fxm_abs(vup.z as int, w.y as int, CAM_IN_LIMIT as int, 131072);
            lemma_fxm_abs(vup.z as int, w.x as int, CAM_IN_LIMIT as int, 131072);
            lemma_fxm_abs(vup.x as int, w.z as int, CAM_IN_LIMIT as int, 131072);
            lemma_fxm_abs(vup.x as int, w.y as int, CAM_IN_LIMIT as int, 131072);
            lemma_fxm_abs(vup.y as int, w.x as int, CAM_IN_LIMIT as int, 131072);
        }
        let u = unit_vector(cross(vup, w));
        proof {
            crate::vector::lemma_unit_vector_near_unit(cross_spec(vup, w));
            crate::vector::lemma_unit_cross_orthogonal(vup, w);
            lemma_fxm_abs(w.y as int, u.z as int, 131072, 131072);
            lemma_fxm_abs(w.z as int, u.y as int, 131072, 131072);
            lemma_fxm_abs(w.z as int, u.x as int, 131072, 131072);
            lemma_fxm_abs(w.x as int, u.z as int, 131072, 131072);
            lemma_fxm_abs(w.x as int, u.y as int, 131072, 131072);
            lemma_fxm_abs(w.y as int, u.x as int, 131072, 131072);
        }
        let v = cross(w, u);
        proof {
            crate::vector::lemma_cross_near_orthogonal(w, u);
        }
        let origin = lookfrom;
        proof {
            lemma_prod_ok(focus_dist as int, viewport_width as int, CAM_IN_LIMIT as int, 0x80000000);
            lemma_fxm_abs(focus_dist as int, viewport_width as int, CAM_IN_LIMIT as int, 0x80000000);
        }
        let fw: i128 = fx_mul(focus_dist, viewport_width);
        proof {
            lemma_fxm_abs(fw as int, u.x as int, 0x20000000000, 131072);
            lemma_fxm_abs(fw as int, u.y as int, 0x20000000000, 131072);
            lemma_fxm_abs(fw as int, u.z as int, 0x20000000000, 131072);
        }
        let horizontal = u.scale(fw);
        proof {
            lemma_prod_ok(focus_dist as int, viewport_height as int, CAM_IN_LIMIT as int, 0x200000);
            lemma_fxm_abs(focus_dist as int, viewport_height as int, CAM_IN_LIMIT as int, 0x200000);
        }
        let fh: i128 = fx_mul(focus_dist, viewport_height);
        proof {
            lemma_fxm_abs(fh as int, v.x as int, 0x80000000, 0x80000);
            lemma_fxm_abs(fh as int, v.y as int, 0x80000000, 0x80000);
            lemma_fxm_abs(fh as int, v.z as int, 0x80000000, 0x80000);
        }
        let vertical = v.scale(fh);
        proof {
            lemma_fxd_by_ge_one(horizontal.x as int, 131072, 0x40000000000);
            lemma_fxd_by_ge_one(horizontal.y as int, 131072, 0x40000000000);
            lemma_fxd_by_ge_one(horizontal.z as int, 131072, 0x40000000000);
            lemma_fxd_by_ge_one(vertical.x as int, 131072, 0x40000000000);
            lemma_fxd_by_ge_one(vertical.y as int, 131072, 0x40000000000);
            lemma_fxd_by_ge_one(vertical.z as int, 131072, 0x40000000000);
            lemma_fxm_abs(focus_dist as int, w.x as int, CAM_IN_LIMIT as int, 131072);
            lemma_fxm_abs(focus_dist as int, w.y as int, CAM_IN_LIMIT as int, 131072);
            lemma_fxm_abs(focus_dist as int, w.z as int, CAM_IN_LIMIT as int, 131072);
        }
        let lower_left_corner = origin.sub(horizontal.div_scalar(131072)).sub(
            vertical.div_scalar(131072),
        ).sub(w.scale(focus_dist));
        Self {
            origin,
            lower_left_corner,
            horizontal,
            vertical,
            u,
            v,
            w,
            lens_radius: div_nn(aperture, 2),
        }
    }

    pub fn get_ray(&self, s: i128, t: i128) -> (r: Ray)
        requires
            cam_wf(*self),
            0 <= s <= 131072,
            0 <= t <= 131072,
        ensures
            vec_in_b(r.origin, POS_LIMIT as int),
            vec_in_b(r.dir, DIR_LIMIT as int),
            self.lens_radius == 0 ==> r.origin == self.origin,
            exists|d: Vec3|
                l2s_spec(d) < 65536 && vec_in_b(d, 65536) && d.z == 0 && r.origin == vadd(
                    self.origin,
                    cam_offset(*self, d),
                ) && r.dir == cam_dir(*self, s as int, t as int, cam_offset(*self, d)),
    {
        let d = random_in_unit_disk();
        proof {
            lemma_fxm_abs(self.lens_radius as int, d.x as int, 0x2000000, 65536);
            lemma_fxm_abs(self.lens_radius as int, d.y as int, 0x2000000, 65536);
            lemma_fxm_abs(self.lens_radius as int, d.z as int, 0x2000000, 65536);
        }
        let rd = d.scale(self.lens_radius);
        proof {
            lemma_fxm_abs(rd.x as int, self.u.x as int, 0x2000000, 131072);
            lemma_fxm_abs(rd.x as int, self.u.y as int, 0x2000000, 131072);
            lemma_fxm_abs(rd.x as int, self.u.z as int, 0x2000000, 131072);
            lemma_fxm_abs(rd.y as int, self.v.x as int, 0x2000000, 0x80000);
            lemma_fxm_abs(rd.y as int, self.v.y as int, 0x2000000, 0x80000);
            lemma_fxm_abs(rd.y as int, self.v.z as int, 0x2000000, 0x80000);
        }
        let offset = self.u.scale(rd.x()).add(self.v.scale(rd.y()));
        proof {
            if self.lens_radius == 0 {
                assert(rd.x == 0 && rd.y == 0) by {
                    assert(fxm(0, d.x as int) == 0);
                    assert(fxm(0, d.y as int) == 0);
                }
                assert(offset == (Vec3 { x: 0, y: 0, z: 0 })) by {
                    assert(fxm(0, self.u.x as int) == 0 && fxm(0, self.u.y as int) == 0 && fxm(
                        0,
                        self.u.z as int,
                    ) == 0);
                    assert(fxm(0, self.v.x as int) == 0 && fxm(0, self.v.y as int) == 0 && fxm(
                        0,
                        self.v.z as int,
                    ) == 0);
                }
            }
            lemma_fxm_abs(s as int, self.horizontal.x as int, 131072, 0x40000000000);
            lemma_fxm_abs(s as int, self.horizontal.y as int, 131072, 0x40000000000);
            lemma_fxm_abs(s as int, self.horizontal.z as int, 131072, 0x40000000000);
            lemma_fxm_abs(t as int, self.vertical.x as int, 131072, 0x40000000000);
            lemma_fxm_abs(t as int, self.vertical.y as int, 131072, 0x40000000000);
            lemma_fxm_abs(t as int, self.vertical.z as int, 131072, 0x40000000000);
        }
        let dir = self.lower_left_corner.add(self.horizontal.scale(s)).add(
            self.vertical.scale(t),
        ).sub(self.origin).sub(offset);
        let r = Ray::new(self.origin.add(offset), dir);
        proof {
            assert(exists|dd: Vec3|
                l2s_spec(dd) < 65536 && vec_in_b(dd, 65536) && dd.z == 0 && r.origin == vadd(
                    self.origin,
                    cam_offset(*self, dd),
                ) && r.dir == cam_dir(*self, s as int, t as int, cam_offset(*self, dd))) by {
                assert(l2s_spec(d) < 65536 && vec_in_b(d, 65536) && d.z == 0 && r.origin == vadd(
                    self.origin,
                    cam_offset(*self, d),
                ) && r.dir == cam_dir(*self, s as int, t as int, cam_offset(*self, d)));
            }
        }
        r
    }
}

} // verus!
