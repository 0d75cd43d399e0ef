use ray_tracer::camera::Camera;
use ray_tracer::hittable::{HitRecord, Hittable, HittableList, Sphere};
use ray_tracer::integrator::{color_to_pixel, ray_color, render};
use ray_tracer::material::{Dielectric, Lambertian, Material, MaterialKind, Metal};
use ray_tracer::ray::Ray;
use ray_tracer::utilities;
use ray_tracer::vector::{
    cross, dot, random_in_unit_disk, random_in_unit_sphere, random_unit_vector, reflect, refract,
    unit_vector, Vec3,
};

const ONE: i128 = 65536;
const HALF: i128 = 32768;
const T_INF: i128 = 2147483648;

fn gray() -> MaterialKind {
    MaterialKind::Lambertian(Lambertian::new(Vec3::new(HALF, HALF, HALF)))
}

#[test]
fn sphere_hit_head_on() {
    let s = Sphere::new(Vec3::new(0, 0, -ONE), HALF, gray());
    let r = Ray::new(Vec3::new(0, 0, 0), Vec3::new(0, 0, -ONE));
    let rec = s.hit(&r, 0, T_INF).expect("head-on ray must hit");
    assert_eq!(rec.t, HALF);
    assert_eq!(rec.p, Vec3::new(0, 0, -HALF));
    assert_eq!(rec.normal, Vec3::new(0, 0, ONE));
    assert!(rec.front_face);
}

#[test]
fn sphere_miss_parallel() {
    let s = Sphere::new(Vec3::new(0, 0, -ONE), HALF, gray());
    let r = Ray::new(Vec3::new(0, 0, 0), Vec3::new(0, ONE, 0));
    assert!(s.hit(&r, 0, T_INF).is_none());
}

#[test]
fn ray_at_parameter() {
    let r = Ray::new(Vec3::new(ONE, 2 * ONE, 3 * ONE), Vec3::new(ONE, 0, -ONE));
    assert_eq!(r.at(2 * ONE), Vec3::new(3 * ONE, 2 * ONE, ONE));
    assert_eq!(r.origin(), Vec3::new(ONE, 2 * ONE, 3 * ONE));
    assert_eq!(r.dir(), Vec3::new(ONE, 0, -ONE));
}

#[test]
fn unit_vector_has_unit_magnitude() {
    let cases = [
        Vec3::new(3 * ONE, 4 * ONE, 0),
        Vec3::new(ONE, ONE, ONE),
        Vec3::new(100 * ONE, -7 * ONE, 3 * ONE),
        Vec3::new(-HALF, HALF, HALF),
        Vec3::new(0, 0, -ONE),
    ];
    for v in cases {
        let u = unit_vector(v);
        let m = u.l2_squared();
        assert!(
            (m - ONE).abs() <= 1024,
            "squared magnitude {m} too far from one"
        );
    }
}

#[test]
fn unit_vector_exact_cases() {
    assert_eq!(unit_vector(Vec3::new(2 * ONE, 0, 0)), Vec3::new(ONE, 0, 0));
    assert_eq!(unit_vector(Vec3::new(0, 0, 0)), Vec3::new(0, 0, 0));
}

#[test]
fn magnitude_of_pythagorean_triple() {
    let v = Vec3::new(3 * ONE, 4 * ONE, 0);
    assert_eq!(v.l2_squared(), 25 * ONE);
    assert_eq!(v.l2(), 5 * ONE);
}

#[test]
fn face_normal_flips_for_back_hits() {
    let mut rec = HitRecord::new();
    let outward = Vec3::new(0, 0, ONE);
    let leaving = Ray::new(Vec3::new(0, 0, 0), Vec3::new(0, 0, ONE));
    rec.set_face_normal(&leaving, outward);
    assert!(!rec.front_face);
    assert_eq!(rec.normal, Vec3::new(0, 0, -ONE));
    let entering = Ray::new(Vec3::new(0, 0, 0), Vec3::new(0, 0, -ONE));
    rec.set_face_normal(&entering, outward);
    assert!(rec.front_face);
    assert_eq!(rec.normal, outward);
}

#[test]
fn random_in_unit_sphere_stays_inside() {
    for _ in 0..200 {
        let v = random_in_unit_sphere();
        assert!(v.l2_squared() < ONE);
    }
}

#[test]
fn random_in_unit_disk_stays_inside_plane() {
    for _ in 0..200 {
        let v = random_in_unit_disk();
        assert!(v.l2_squared() < ONE);
        assert_eq!(v.z(), 0);
    }
}

#[test]
fn random_unit_vector_is_nearly_unit() {
    for _ in 0..100 {
        let v = random_unit_vector();
        assert!((v.l2_squared() - ONE).abs() <= 2048);
    }
}

#[test]
fn reflect_reverses_opposite_of_normal() {
    let n = Vec3::new(0, 0, ONE);
    assert_eq!(reflect(&n.neg(), &n), n);
    let m = Vec3::new(0, -ONE, 0);
    assert_eq!(reflect(&m.neg(), &m), m);
}

#[test]
fn reflect_mirrors_across_surface() {
    let v = Vec3::new(ONE, -ONE, 0);
    let n = Vec3::new(0, ONE, 0);
    assert_eq!(reflect(&v, &n), Vec3::new(ONE, ONE, 0));
}

#[test]
fn refract_straight_through() {
    let uv = Vec3::new(0, 0, -ONE);
    let n = Vec3::new(0, 0, ONE);
    assert_eq!(refract(&uv, &n, ONE), Vec3::new(0, 0, -ONE));
}

#[test]
fn dot_and_cross_basis() {
    let x = Vec3::new(ONE, 0, 0);
    let y = Vec3::new(0, ONE, 0);
    let z = Vec3::new(0, 0, ONE);
    assert_eq!(dot(&x, &y), 0);
    assert_eq!(dot(&x, &x), ONE);
    assert_eq!(cross(x, y), z);
    assert_eq!(cross(y, z), x);
}

#[test]
fn nearest_of_two_overlapping_spheres_wins() {
    let near = Sphere::new(Vec3::new(0, 0, -2 * ONE), HALF, gray());
    let far_mat = MaterialKind::Metal(Metal::new(Vec3::new(ONE, ONE, ONE), 0));
    let far = Sphere::new(Vec3::new(0, 0, -3 * ONE), ONE, far_mat);
    let r = Ray::new(Vec3::new(0, 0, 0), Vec3::new(0, 0, -ONE));

    let mut world_a = HittableList::new();
    world_a.add(near);
    world_a.add(far);
    let rec_a = world_a.hit(&r, 66, T_INF).expect("must hit");
    assert_eq!(rec_a.t, 98304);
    assert_eq!(rec_a.mat, gray());

    let mut world_b = HittableList::new();
    world_b.add(far);
    world_b.add(near);
    let rec_b = world_b.hit(&r, 66, T_INF).expect("must hit");
    assert_eq!(rec_b.t, 98304);
    assert_eq!(rec_b.mat, gray());
}

#[test]
fn metal_absorbs_grazing_reflection() {
    let metal = Metal::new(Vec3::new(ONE, ONE, ONE), ONE);
    let mut rec = HitRecord::new();
    rec.p = Vec3::new(0, 0, -HALF);
    rec.normal = Vec3::new(0, 0, ONE);
    rec.front_face = true;
    let r = Ray::new(Vec3::new(-ONE, 0, -HALF), Vec3::new(ONE, 0, 0));
    assert!(metal.scatter(&r, &rec).is_none());
}

#[test]
fn metal_clamps_fuzz_at_construction() {
    let m = Metal::new(Vec3::new(ONE, 0, 0), 3 * ONE);
    assert_eq!(m.fuzz, ONE);
    let m2 = Metal::new(Vec3::new(ONE, 0, 0), -42);
    assert_eq!(m2.fuzz, 0);
}

#[test]
fn metal_reflects_away_from_surface() {
    let metal = Metal::new(Vec3::new(ONE, HALF, HALF), 0);
    let mut rec = HitRecord::new();
    rec.p = Vec3::new(0, 0, -HALF);
    rec.normal = Vec3::new(0, 0, ONE);
    rec.front_face = true;
    let r = Ray::new(Vec3::new(0, 0, 0), Vec3::new(0, 0, -ONE));
    let (att, sc) = metal.scatter(&r, &rec).expect("head-on metal reflects");
    assert_eq!(att, Vec3::new(ONE, HALF, HALF));
    assert_eq!(sc.origin(), rec.p);
    assert_eq!(sc.dir(), Vec3::new(0, 0, ONE));
}

#[test]
fn dielectric_forces_reflection_past_critical_angle() {
    let glass = Dielectric::new(98304);
    let mut rec = HitRecord::new();
    rec.p = Vec3::new(0, 0, 0);
    rec.normal = Vec3::new(0, 0, ONE);
    rec.front_face = false;
    let r = Ray::new(Vec3::new(-ONE, 0, 0), Vec3::new(ONE, 0, 0));
    let (att, sc) = glass.scatter(&r, &rec).expect("dielectric always scatters");
    assert_eq!(att, Vec3::new(ONE, ONE, ONE));
    assert_eq!(sc.origin(), rec.p);
    assert_eq!(sc.dir(), Vec3::new(ONE, 0, 0));
}

#[test]
fn lambertian_scatters_albedo_from_hit_point() {
    let lam = Lambertian::new(Vec3::new(HALF, 13107, 6553));
    let mut rec = HitRecord::new();
    rec.p = Vec3::new(ONE, ONE, -ONE);
    rec.normal = Vec3::new(0, ONE, 0);
    rec.front_face = true;
    let r = Ray::new(Vec3::new(0, 0, 0), Vec3::new(ONE, 0, 0));
    let (att, sc) = lam.scatter(&r, &rec).expect("diffuse always scatters");
    assert_eq!(att, Vec3::new(HALF, 13107, 6553));
    assert_eq!(sc.origin(), Vec3::new(ONE, ONE, -ONE));
}

#[test]
fn depth_exhaustion_returns_black() {
    let mut world = HittableList::new();
    world.add(Sphere::new(Vec3::new(0, 0, -2 * ONE), HALF, gray()));
    let r = Ray::new(Vec3::new(0, 0, 0), Vec3::new(0, 0, -ONE));
    assert_eq!(ray_color(r, &world, 0), Vec3::new(0, 0, 0));
    assert_eq!(ray_color(r, &world, -3), Vec3::new(0, 0, 0));
    assert_eq!(ray_color(r, &world, 1), Vec3::new(0, 0, 0));
}

#[test]
fn one_diffuse_bounce_stays_under_albedo() {
    let mut world = HittableList::new();
    world.add(Sphere::new(Vec3::new(0, 0, -2 * ONE), HALF, gray()));
    let r = Ray::new(Vec3::new(0, 0, 0), Vec3::new(0, 0, -ONE));
    let mut saw_light = false;
    for _ in 0..20 {
        let c = ray_color(r, &world, 2);
        assert!(0 <= c.x && c.x <= HALF);
        assert!(0 <= c.y && c.y <= HALF);
        assert!(0 <= c.z && c.z <= HALF);
        if c.z > 0 {
            saw_light = true;
        }
    }
    assert!(saw_light, "a front-facing diffuse bounce must see the sky");
}

#[test]
fn ray_color_bounded_by_first_albedo() {
    let albedo = Vec3::new(39321, 32768, 26214);
    let mut world = HittableList::new();
    world.add(Sphere::new(
        Vec3::new(0, 0, -2 * ONE),
        HALF,
        MaterialKind::Metal(Metal::new(albedo, HALF)),
    ));
    let r = Ray::new(Vec3::new(0, 0, 0), Vec3::new(0, 0, -ONE));
    for _ in 0..20 {
        let c = ray_color(r, &world, 4);
        assert!(0 <= c.x && c.x <= albedo.x);
        assert!(0 <= c.y && c.y <= albedo.y);
        assert!(0 <= c.z && c.z <= albedo.z);
    }
}

#[test]
fn background_gradient_exact_values() {
    let world = HittableList::new();
    let level = Ray::new(Vec3::new(0, 0, 0), Vec3::new(0, 0, -ONE));
    assert_eq!(ray_color(level, &world, 50), Vec3::new(49152, 55705, ONE));
    let up = Ray::new(Vec3::new(0, 0, 0), Vec3::new(0, ONE, 0));
    assert_eq!(ray_color(up, &world, 50), Vec3::new(HALF, 45875, ONE));
    let down = Ray::new(Vec3::new(0, 0, 0), Vec3::new(0, -ONE, 0));
    assert_eq!(ray_color(down, &world, 50), Vec3::new(ONE, ONE, ONE));
}

#[test]
fn camera_builds_orthonormal_basis() {
    let cam = Camera::new(
        Vec3::new(0, 0, 0),
        Vec3::new(0, 0, -ONE),
        Vec3::new(0, ONE, 0),
        90 * ONE,
        ONE,
        0,
        ONE,
    );
    assert_eq!(cam.w, Vec3::new(0, 0, ONE));
    assert_eq!(cam.u, Vec3::new(ONE, 0, 0));
    assert_eq!(cam.v, Vec3::new(0, ONE, 0));
    assert_eq!(cam.origin, Vec3::new(0, 0, 0));
    assert_eq!(cam.lens_radius, 0);
}

#[test]
fn camera_center_ray_points_forward() {
    let cam = Camera::new(
        Vec3::new(0, 0, 0),
        Vec3::new(0, 0, -ONE),
        Vec3::new(0, ONE, 0),
        90 * ONE,
        ONE,
        0,
        ONE,
    );
    let r = cam.get_ray(HALF, HALF);
    assert_eq!(r.origin(), Vec3::new(0, 0, 0));
    assert!(r.dir().z <= -ONE + 16);
    assert!(r.dir().x.abs() <= 1024);
    assert!(r.dir().y.abs() <= 1024);
}

#[test]
fn utilities_clamp_and_angles() {
    assert_eq!(utilities::clamp(5, 0, 10), 5);
    assert_eq!(utilities::clamp(-5, 0, 10), 0);
    assert_eq!(utilities::clamp(15, 0, 10), 10);
    assert_eq!(utilities::degrees_to_radians(180 * ONE), utilities::PI_RAW);
    assert_eq!(utilities::degrees_to_radians(0), 0);
}

#[test]
fn random_scalars_stay_in_range() {
    for _ in 0..200 {
        let d = utilities::random_double();
        assert!(0 <= d && d < ONE);
        let x = utilities::random_in_range(-3 * ONE, 5 * ONE);
        assert!(-3 * ONE <= x && x < 5 * ONE);
    }
}

#[test]
fn pixel_encoding_applies_gamma() {
    let sum = Vec3::new(100 * ONE, 0, 100 * 16384);
    let (r, g, b) = color_to_pixel(&sum, 100);
    assert_eq!(r, 255);
    assert_eq!(g, 0);
    assert_eq!(b, 128);
}

#[test]
fn render_background_only_is_sky() {
    let world = HittableList::new();
    let cam = Camera::new(
        Vec3::new(0, 0, 0),
        Vec3::new(0, 0, -ONE),
        Vec3::new(0, ONE, 0),
        90 * ONE,
        ONE,
        0,
        ONE,
    );
    let pixels = render(&world, &cam, 4, 3, 2, 5);
    assert_eq!(pixels.len(), 12);
    for (_r, _g, b) in pixels {
        assert_eq!(b, 255);
    }
}

#[test]
fn render_sphere_darkens_center() {
    let mut world = HittableList::new();
    world.add(Sphere::new(
        Vec3::new(0, 0, -2 * ONE),
        ONE,
        MaterialKind::Lambertian(Lambertian::new(Vec3::new(6553, 6553, 6553))),
    ));
    let cam = Camera::new(
        Vec3::new(0, 0, 0),
        Vec3::new(0, 0, -ONE),
        Vec3::new(0, ONE, 0),
        40 * ONE,
        ONE,
        0,
        2 * ONE,
    );
    let pixels = render(&world, &cam, 3, 3, 4, 8);
    assert_eq!(pixels.len(), 9);
    let center = pixels[4];
    assert!(center.2 < 255, "center pixel must be darkened by the sphere");
}
