//! The radiance integrator: the bounce loop that follows a ray through the
//! scene, and the sampling loop that averages jittered rays per pixel and
//! encodes the accumulated radiance as display bytes.
use vstd::prelude::*;

use crate::camera::{cam_dir, cam_offset, cam_wf, Camera};
use crate::fixed::{
    div_nn, fx_mul, fx_sqrt, fxm, lemma_fxm_frac, lemma_fxm_unit, lemma_prod_ok,
    lemma_sqrt_val_is, sclamp, sqrt_val,
};
use crate::hittable::{
    lemma_list_best_in_window, list_best, list_wf, sph_record, Hittable, HittableList, Sphere,
};
use crate::material::{
    attenuation_bound, color01, scatter_output_ok, Material, MaterialKind,
};
use crate::ray::Ray;
use crate::utilities;
use crate::vector::{
    dot_spec, l2s_spec, reflect_spec, unit_spec, vadd, vec_in_b, vmul, vscale, Color, Vec3,
    DIR_LIMIT, OP_LIMIT, POS_LIMIT,
};

verus! {

/// Self-intersection epsilon, about one thousandth.
pub const T_MIN_EPS: i128 = 66;

/// The query window's upper bound standing in for an unbounded parameter.
pub const T_INFINITY: i128 = 2147483648;

/// The sky gradient behind a missed ray: a linear blend from white to blue
/// driven by the normalized direction's height. The blend parameter is
/// saturated to [0, 1]; the saturation can bind for quantization-distorted
/// directions whose normalized height leaves [-1, 1].
pub open spec fn background_spec(r: Ray) -> Color {
    let t = sclamp(fxm(32768, unit_spec(r.dir).y as int + 65536), 0, 65536);
    vadd(
        vscale(65536 - t, Vec3 { x: 65536, y: 65536, z: 65536 }),
        vscale(t, Vec3 { x: 32768, y: 45875, z: 65536 }),
    )
}

/// The gradient's blue channel is full-strength for every direction.
pub proof fn lemma_background_blue(r: Ray)
    ensures
        background_spec(r).z == 65536,
{
    let t = sclamp(fxm(32768, unit_spec(r.dir).y as int + 65536), 0, 65536);
    lemma_fxm_unit(65536 - t);
    lemma_fxm_unit(t);
}

fn background(r: &Ray) -> (c: Color)
    requires
        vec_in_b(r.dir, OP_LIMIT as int),
    ensures
        c == background_spec(*r),
        color01(c),
{
    let unit_dir = crate::vector::unit_vector(r.dir());
    proof {
        lemma_prod_ok(32768, unit_dir.y as int + 65536, 32768, 0x30000);
    }
    let t = utilities::clamp(fx_mul(32768, unit_dir.y() + 65536), 0, 65536);
    proof {
        lemma_fxm_unit(65536 - t as int);
        lemma_fxm_frac(t as int, 32768);
        lemma_fxm_frac(t as int, 45875);
        lemma_fxm_frac(t as int, 65536);
    }
    let white = Vec3::new(65536, 65536, 65536);
    let blue = Vec3::new(32768, 45875, 65536);
    white.scale(65536 - t).add(blue.scale(t))
}

/// The radiances the bounce loop can hand back from a state: a current
/// ray, a remaining depth, and the attenuation accumulated so far. It
/// mirrors the loop exactly: an exhausted budget gives black, a miss gives
/// the attenuated sky, and a hit composes any scatter outcome the struck
/// material's contract admits.
pub open spec fn radiance_from(
    objs: Seq<Sphere>,
    r: Ray,
    depth: int,
    acc: Color,
    c: Color,
) -> bool
    decreases depth,
{
    if depth <= 0 {
        c == (Vec3 { x: 0, y: 0, z: 0 })
    } else {
        match list_best(objs, r, T_MIN_EPS as int, T_INFINITY as int) {
            None => c == vmul(acc, background_spec(r)),
            Some(p) => {
                let rec = sph_record(objs[p.0], r, p.1);
                exists|res: Option<(Color, Ray)>|
                    #[trigger] rec.mat.scatter_ens(r, rec, res) && scatter_output_ok(rec, res)
                        && (match res {
                        None => c == (Vec3 { x: 0, y: 0, z: 0 }),
                        Some(ar) => radiance_from(objs, ar.1, depth - 1, vmul(acc, ar.0), c),
                    })
            },
        }
    }
}

/// The radiances one full path can produce for a primary ray.
pub open spec fn possible_radiance(objs: Seq<Sphere>, r: Ray, depth: int, c: Color) -> bool {
    radiance_from(objs, r, depth, Vec3 { x: 65536, y: 65536, z: 65536 }, c)
}

/// The nearest surface the ray meets is a metal whose mirror reflection
/// points into the surface: the path is absorbed deterministically.
pub open spec fn first_hit_absorbs(objs: Seq<Sphere>, r: Ray) -> bool {
    match list_best(objs, r, T_MIN_EPS as int, T_INFINITY as int) {
        Some(p) => {
            let rec = sph_record(objs[p.0], r, p.1);
            match rec.mat {
                MaterialKind::Metal(m) => dot_spec(
                    reflect_spec(unit_spec(r.dir), rec.normal),
                    rec.normal,
                ) <= 0,
                _ => false,
            }
        },
        None => false,
    }
}

/// The radiance carried back along a ray: black once the bounce budget is
/// spent, the sky gradient when nothing is hit, otherwise the scattering
/// attenuations accumulated until a miss, an absorption, or exhaustion —
/// always one of the outcomes the bounce-loop mirror admits, never above
/// the first struck material's attenuation ceiling, and black whenever the
/// first hit absorbs deterministically.
pub fn ray_color(r: Ray, world: &HittableList, depth: i16) -> (c: Color)
    requires
        list_wf(world.objects@),
        vec_in_b(r.origin, POS_LIMIT as int),
        vec_in_b(r.dir, DIR_LIMIT as int),
    ensures
        color01(c),
        possible_radiance(world.objects@, r, depth as int, c),
        depth <= 0 ==> c == (Vec3 { x: 0, y: 0, z: 0 }),
        depth > 0 && list_best(world.objects@, r, T_MIN_EPS as int, T_INFINITY as int) is None
            ==> c == background_spec(r),
        depth == 1 && list_best(world.objects@, r, T_MIN_EPS as int, T_INFINITY as int) is Some
            ==> c == (Vec3 { x: 0, y: 0, z: 0 }),
        depth > 0 && first_hit_absorbs(world.objects@, r) ==> c == (Vec3 { x: 0, y: 0, z: 0 }),
        depth > 0 ==> match list_best(world.objects@, r, T_MIN_EPS as int, T_INFINITY as int) {
            Some(p) => c.x <= attenuation_bound(world.objects@[p.0].mat).x && c.y
                <= attenuation_bound(world.objects@[p.0].mat).y && c.z <= attenuation_bound(
                world.objects@[p.0].mat,
            ).z,
            None => true,
        },
{
    let ghost objs = world.objects@;
    proof {
        lemma_list_best_in_window(objs, r, T_MIN_EPS as int, T_INFINITY as int);
    }
    let mut acc = Vec3::new(65536, 65536, 65536);
    let mut ray = r;
    let mut d = depth;
    while d > 0
        invariant
            objs == world.objects@,
            list_wf(objs),
            vec_in_b(ray.origin, POS_LIMIT as int),
            vec_in_b(ray.dir, DIR_LIMIT as int),
            color01(acc),
            d <= depth,
            d == depth ==> ray == r && acc == (Vec3 { x: 65536, y: 65536, z: 65536 }),
            d < depth ==> !first_hit_absorbs(objs, r),
            d < depth ==> match list_best(objs, r, T_MIN_EPS as int, T_INFINITY as int) {
                Some(p) => 0 <= p.0 < objs.len() && acc.x <= attenuation_bound(objs[p.0].mat).x
                    && acc.y <= attenuation_bound(objs[p.0].mat).y && acc.z <= attenuation_bound(
                    objs[p.0].mat,
                ).z,
                None => false,
            },
            forall|cf: Color|
                #[trigger] radiance_from(objs, ray, d as int, acc, cf) ==> radiance_from(
                    objs,
                    r,
                    depth as int,
                    Vec3 { x: 65536, y: 65536, z: 65536 },
                    cf,
                ),
        decreases d,
    {
        match world.hit(&ray, T_MIN_EPS, T_INFINITY) {
            Some(rec) => {
                proof {
                    assert(match list_best(objs, ray, T_MIN_EPS as int, T_INFINITY as int) {
                        Some(p) => rec == sph_record(objs[p.0], ray, p.1),
                        None => false,
                    });
                    lemma_list_best_in_window(objs, r, T_MIN_EPS as int, T_INFINITY as int);
                }
                match rec.mat.scatter(&ray, &rec) {
                    Some((att, sc)) => {
                        proof {
                            lemma_fxm_frac(acc.x as int, att.x as int);
                            lemma_fxm_frac(acc.y as int, att.y as int);
                            lemma_fxm_frac(acc.z as int, att.z as int);
                            if d == depth {
                                lemma_fxm_unit(att.x as int);
                                lemma_fxm_unit(att.y as int);
                                lemma_fxm_unit(att.z as int);
                                assert(!first_hit_absorbs(objs, r));
                            }
                        }
                        let acc2 = acc.elem_mul(att);
                        proof {
                            assert forall|cf: Color|
                                #[trigger] radiance_from(
                                    objs,
                                    sc,
                                    d as int - 1,
                                    acc2,
                                    cf,
                                ) implies radiance_from(objs, ray, d as int, acc, cf) by {
                                let recw = rec;
                                assert(recw.mat.scatter_ens(ray, recw, Some((att, sc)))
                                    && scatter_output_ok(recw, Some((att, sc)))
                                    && radiance_from(objs, sc, d as int - 1, vmul(acc, att), cf));
                            }
                        }
                        acc = acc2;
                        ray = sc;
                        d = d - 1;
                    },
                    None => {
                        proof {
                            assert(radiance_from(
                                objs,
                                ray,
                                d as int,
                                acc,
                                Vec3 { x: 0, y: 0, z: 0 },
                            )) by {
                                assert(rec.mat.scatter_ens(ray, rec, None)
                                    && scatter_output_ok(rec, None));
                            }
                        }
                        return Vec3::new(0, 0, 0);
                    },
                }
            },
            None => {
                let bg = background(&ray);
                proof {
                    lemma_fxm_unit(bg.x as int);
                    lemma_fxm_unit(bg.y as int);
                    lemma_fxm_unit(bg.z as int);
                    lemma_fxm_frac(acc.x as int, bg.x as int);
                    lemma_fxm_frac(acc.y as int, bg.y as int);
                    lemma_fxm_frac(acc.z as int, bg.z as int);
                    assert(radiance_from(objs, ray, d as int, acc, vmul(acc, bg)));
                }
                return acc.elem_mul(bg);
            },
        }
    }
    proof {
        assert(radiance_from(objs, ray, d as int, acc, Vec3 { x: 0, y: 0, z: 0 }));
    }
    Vec3::new(0, 0, 0)
}

/// One display channel: average over the samples, gamma-correct by square
/// root, saturate to just under one, and scale to a byte.
pub open spec fn channel_to_byte_spec(c: int, samples: int) -> int {
    sclamp(sqrt_val((c / samples) * 65536), 0, 65470) / 256
}

pub fn channel_to_byte(c: i128, samples: i128) -> (r: u8)
    requires
        0 <= c,
        1 <= samples <= 65536,
        c <= samples * 65536,
    ensures
        r as int == channel_to_byte_spec(c as int, samples as int),
{
    let scaled = div_nn(c, samples);
    proof {
        assert(scaled <= 0x100000000) by (nonlinear_arith)
            requires
                scaled as int == (c as int) / (samples as int),
                c as int <= (samples as int) * 65536,
                0 <= c,
                1 <= samples <= 65536,
        ;
    }
    let g = fx_sqrt(scaled);
    let cl = utilities::clamp(g, 0, 65470);
    let b = div_nn(cl, 256);
    proof {
        assert(0 <= b <= 255) by (nonlinear_arith)
            requires
                b as int == (cl as int) / 256,
                0 <= cl <= 65470,
        ;
    }
    b as u8
}

/// The display encoding of one accumulated pixel color.
pub fn color_to_pixel(c: &Color, samples_per_pixel: i128) -> (r: (u8, u8, u8))
    requires
        1 <= samples_per_pixel <= 65536,
        0 <= c.x <= samples_per_pixel * 65536,
        0 <= c.y <= samples_per_pixel * 65536,
        0 <= c.z <= samples_per_pixel * 65536,
    ensures
        r.0 as int == channel_to_byte_spec(c.x as int, samples_per_pixel as int),
        r.1 as int == channel_to_byte_spec(c.y as int, samples_per_pixel as int),
        r.2 as int == channel_to_byte_spec(c.z as int, samples_per_pixel as int),
{
    (
        channel_to_byte(c.x, samples_per_pixel),
        channel_to_byte(c.y, samples_per_pixel),
        channel_to_byte(c.z, samples_per_pixel),
    )
}

/// The normalized image coordinate of pixel index i under jitter xi, over
/// n pixels: (i + xi) / (n - 1) in raw units.
pub open spec fn jitter_coord(i: int, xi: int, n: int) -> int {
    (i * 65536 + xi) / (n - 1)
}

/// The primary ray the camera produces for image coordinates (s, t) and a
/// lens draw d.
pub open spec fn cam_ray(c: Camera, s: int, t: int, d: Vec3) -> Ray {
    Ray { origin: vadd(c.origin, cam_offset(c, d)), dir: cam_dir(c, s, t, cam_offset(c, d)) }
}

/// One sample of pixel (i, j): a radiance the path tracer can return for a
/// primary ray the camera can produce at that pixel, over some jitter pair
/// in [0, 1) and some lens draw in the unit disk.
pub open spec fn sample_ok(
    objs: Seq<Sphere>,
    cam: Camera,
    i: int,
    j: int,
    w: int,
    h: int,
    depth: int,
    c: Color,
) -> bool {
    exists|xi_u: int, xi_v: int, d: Vec3|
        0 <= xi_u < 65536 && 0 <= xi_v < 65536 && l2s_spec(d) < 65536 && vec_in_b(d, 65536)
            && d.z == 0 && #[trigger] possible_radiance(
            objs,
            cam_ray(cam, jitter_coord(i, xi_u, w), jitter_coord(j, xi_v, h), d),
            depth,
            c,
        )
}

/// An accumulated pixel sum: n sample radiances of pixel (i, j), added up.
pub open spec fn accum_ok(
    objs: Seq<Sphere>,
    cam: Camera,
    i: int,
    j: int,
    w: int,
    h: int,
    depth: int,
    n: int,
    cv: Color,
) -> bool
    decreases n,
{
    if n <= 0 {
        cv == (Vec3 { x: 0, y: 0, z: 0 })
    } else {
        exists|prev: Color, c: Color|
            #![auto]
            accum_ok(objs, cam, i, j, w, h, depth, n - 1, prev) && sample_ok(
                objs,
                cam,
                i,
                j,
                w,
                h,
                depth,
                c,
            ) && cv == vadd(prev, c)
    }
}

/// Adding one more admissible sample extends an admissible accumulation.
pub proof fn lemma_accum_step(
    objs: Seq<Sphere>,
    cam: Camera,
    i: int,
    j: int,
    w: int,
    h: int,
    depth: int,
    n: int,
    prev: Color,
    c: Color,
    cv: Color,
)
    requires
        n >= 0,
        accum_ok(objs, cam, i, j, w, h, depth, n, prev),
        sample_ok(objs, cam, i, j, w, h, depth, c),
        cv == vadd(prev, c),
    ensures
        accum_ok(objs, cam, i, j, w, h, depth, n + 1, cv),
{
    assert(accum_ok(objs, cam, i, j, w, h, depth, (n + 1) - 1, prev));
}

/// A pixel of the output image: the display encoding of an accumulated sum
/// of per-sample radiances of that pixel under this scene and camera.
pub open spec fn pixel_ok(
    p: (u8, u8, u8),
    objs: Seq<Sphere>,
    cam: Camera,
    i: int,
    j: int,
    w: int,
    h: int,
    depth: int,
    samples: int,
) -> bool {
    exists|cv: Color|
        #[trigger] accum_ok(objs, cam, i, j, w, h, depth, samples, cv) && 0 <= cv.x <= samples
            * 65536 && 0 <= cv.y <= samples * 65536 && 0 <= cv.z <= samples * 65536
            && p.0 as int == channel_to_byte_spec(cv.x as int, samples) && p.1 as int
            == channel_to_byte_spec(cv.y as int, samples) && p.2 as int == channel_to_byte_spec(
            cv.z as int,
            samples,
        )
}

/// The sampling loop: rows from the top of the image down, columns left to
/// right, each pixel the encoded sum of jittered radiance samples of that
/// pixel. A scene with no primitives shows the sky everywhere, so its
/// every pixel has a fully saturated blue byte.
pub fn render(
    world: &HittableList,
    cam: &Camera,
    image_width: u32,
    image_height: u32,
    samples_per_pixel: u32,
    max_depth: i16,
) -> (pixels: Vec<(u8, u8, u8)>)
    requires
        list_wf(world.objects@),
        cam_wf(*cam),
        2 <= image_width <= 4096,
        2 <= image_height <= 4096,
        1 <= samples_per_pixel <= 65536,
    ensures
        pixels@.len() == image_width as int * image_height as int,
        forall|k: int|
            0 <= k < pixels@.len() ==> pixel_ok(
                #[trigger] pixels@[k],
                world.objects@,
                *cam,
                k % (image_width as int),
                image_height as int - 1 - k / (image_width as int),
                image_width as int,
                image_height as int,
                max_depth as int,
                samples_per_pixel as int,
            ),
        world.objects@.len() == 0 && max_depth >= 1 ==> forall|k: int|
            0 <= k < pixels@.len() ==> (#[trigger] pixels@[k]).2 == 255,
{
    let ghost objs = world.objects@;
    let mut pixels: Vec<(u8, u8, u8)> = Vec::new();
    let mut j: u32 = image_height;
    while j > 0
        invariant
            objs == world.objects@,
            list_wf(objs),
            cam_wf(*cam),
            2 <= image_width <= 4096,
            2 <= image_height <= 4096,
            1 <= samples_per_pixel <= 65536,
            j <= image_height,
            pixels@.len() == (image_height - j) as int * image_width as int,
            forall|k: int|
                0 <= k < pixels@.len() ==> pixel_ok(
                    #[trigger] pixels@[k],
                    objs,
                    *cam,
                    k % (image_width as int),
                    image_height as int - 1 - k / (image_width as int),
                    image_width as int,
                    image_height as int,
                    max_depth as int,
                    samples_per_pixel as int,
                ),
            objs.len() == 0 && max_depth >= 1 ==> forall|k: int|
                0 <= k < pixels@.len() ==> (#[trigger] pixels@[k]).2 == 255,
        decreases j,
    {
        j = j - 1;
        let mut i: u32 = 0;
        while i < image_width
            invariant
                objs == world.objects@,
                list_wf(objs),
                cam_wf(*cam),
                2 <= image_width <= 4096,
                2 <= image_height <= 4096,
                1 <= samples_per_pixel <= 65536,
                j < image_height,
                i <= image_width,
                pixels@.len() == (image_height - j - 1) as int * image_width as int + i as int,
                forall|k: int|
                    0 <= k < pixels@.len() ==> pixel_ok(
                        #[trigger] pixels@[k],
                        objs,
                        *cam,
                        k % (image_width as int),
                        image_height as int - 1 - k / (image_width as int),
                        image_width as int,
                        image_height as int,
                        max_depth as int,
                        samples_per_pixel as int,
                    ),
                objs.len() == 0 && max_depth >= 1 ==> forall|k: int|
                    0 <= k < pixels@.len() ==> (#[trigger] pixels@[k]).2 == 255,
            decreases image_width - i,
        {
            let mut color = Vec3::new(0, 0, 0);
            let mut s: u32 = 0;
            while s < samples_per_pixel
                invariant
                    objs == world.objects@,
                    list_wf(objs),
                    cam_wf(*cam),
                    2 <= image_width <= 4096,
                    2 <= image_height <= 4096,
                    1 <= samples_per_pixel <= 65536,
                    j < image_height,
                    i < image_width,
                    s <= samples_per_pixel,
                    0 <= color.x <= s as int * 65536,
                    0 <= color.y <= s as int * 65536,
                    0 <= color.z <= s as int * 65536,
                    accum_ok(
                        objs,
                        *cam,
                        i as int,
                        j as int,
                        image_width as int,
                        image_height as int,
                        max_depth as int,
                        s as int,
                        color,
                    ),
                    objs.len() == 0 && max_depth >= 1 ==> color.z == s as int * 65536,
                decreases samples_per_pixel - s,
            {
                let xi_u = utilities::random_double();
                let xi_v = utilities::random_double();
                let nu: i128 = (i as i128) * 65536 + xi_u;
                let nv: i128 = (j as i128) * 65536 + xi_v;
                let su = div_nn(nu, (image_width - 1) as i128);
                let sv = div_nn(nv, (image_height - 1) as i128);
                proof {
                    assert(su <= 131072) by (nonlinear_arith)
                        requires
                            su as int == (nu as int) / ((image_width - 1) as int),
                            nu as int <= (image_width - 1) as int * 65536 + 65535,
                            1 <= (image_width - 1) as int,
                    ;
                    assert(sv <= 131072) by (nonlinear_arith)
                        requires
                            sv as int == (nv as int) / ((image_height - 1) as int),
                            nv as int <= (image_height - 1) as int * 65536 + 65535,
                            1 <= (image_height - 1) as int,
                    ;
                    assert(su >= 0 && sv >= 0) by (nonlinear_arith)
                        requires
                            su as int == (nu as int) / ((image_width - 1) as int),
                            sv as int == (nv as int) / ((image_height - 1) as int),
                            nu >= 0,
                            nv >= 0,
                            1 <= (image_width - 1) as int,
                            1 <= (image_height - 1) as int,
                    ;
                }
                let ray = cam.get_ray(su, sv);
                let ghost dd = choose|dd: Vec3|
                    l2s_spec(dd) < 65536 && vec_in_b(dd, 65536) && dd.z == 0 && ray.origin == vadd(
                        cam.origin,
                        cam_offset(*cam, dd),
                    ) && ray.dir == cam_dir(*cam, su as int, sv as int, cam_offset(*cam, dd));
                let c = ray_color(ray, world, max_depth);
                proof {
                    assert(ray == cam_ray(
                        *cam,
                        jitter_coord(i as int, xi_u as int, image_width as int),
                        jitter_coord(j as int, xi_v as int, image_height as int),
                        dd,
                    ));
                    assert(sample_ok(
                        objs,
                        *cam,
                        i as int,
                        j as int,
                        image_width as int,
                        image_height as int,
                        max_depth as int,
                        c,
                    )) by {
                        assert(0 <= xi_u < 65536 && 0 <= xi_v < 65536 && l2s_spec(dd) < 65536
                            && vec_in_b(dd, 65536) && dd.z == 0 && possible_radiance(
                            objs,
                            cam_ray(
                                *cam,
                                jitter_coord(i as int, xi_u as int, image_width as int),
                                jitter_coord(j as int, xi_v as int, image_height as int),
                                dd,
                            ),
                            max_depth as int,
                            c,
                        ));
                    }
                    if objs.len() == 0 && max_depth >= 1 {
                        lemma_background_blue(ray);
                    }
                }
                let color2 = color.add(c);
                proof {
                    lemma_accum_step(
                        objs,
                        *cam,
                        i as int,
                        j as int,
                        image_width as int,
                        image_height as int,
                        max_depth as int,
                        s as int,
                        color,
                        c,
                        color2,
                    );
                }
                color = color2;
                s = s + 1;
            }
            let pix = color_to_pixel(&color, samples_per_pixel as i128);
            proof {
                let ghost k0 = pixels@.len() as int;
                assert(k0 % (image_width as int) == i as int && k0 / (image_width as int)
                    == image_height as int - 1 - j as int) by (nonlinear_arith)
                    requires
                        k0 == (image_height as int - j as int - 1) * (image_width as int)
                            + i as int,
                        0 <= i as int && (i as int) < image_width as int,
                        0 <= image_height as int - j as int - 1,
                        1 <= image_width as int,
                ;
                assert(pixel_ok(
                    pix,
                    objs,
                    *cam,
                    i as int,
                    j as int,
                    image_width as int,
                    image_height as int,
                    max_depth as int,
                    samples_per_pixel as int,
                )) by {
                    assert(accum_ok(
                        objs,
                        *cam,
                        i as int,
                        j as int,
                        image_width as int,
                        image_height as int,
                        max_depth as int,
                        samples_per_pixel as int,
                        color,
                    ) && 0 <= color.x <= samples_per_pixel as int * 65536 && 0 <= color.y
                        <= samples_per_pixel as int * 65536 && 0 <= color.z
                        <= samples_per_pixel as int * 65536 && pix.0 as int == channel_to_byte_spec(
                        color.x as int,
                        samples_per_pixel as int,
                    ) && pix.1 as int == channel_to_byte_spec(
                        color.y as int,
                        samples_per_pixel as int,
                    ) && pix.2 as int == channel_to_byte_spec(
                        color.z as int,
                        samples_per_pixel as int,
                    ));
                }
                if objs.len() == 0 && max_depth >= 1 {
                    assert((samples_per_pixel as int * 65536) / (samples_per_pixel as int)
                        == 65536) by (nonlinear_arith)
                        requires
                            1 <= samples_per_pixel as int,
                    ;
                    lemma_sqrt_val_is(65536int * 65536int, 65536int);
                    assert(pix.2 == 255);
                }
            }
            pixels.push(pix);
            i = i + 1;
        }
        proof {
            assert((image_height as int - j as int - 1) * (image_width as int) + image_width as int
                == (image_height as int - j as int) * (image_width as int)) by (nonlinear_arith);
        }
    }
    proof {
        assert((image_height as int) * (image_width as int) == (image_width as int) * (
        image_height as int)) by (nonlinear_arith);
    }
    pixels
}

} // verus!
