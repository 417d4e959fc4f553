use raytrace::aabb::{surrounding_box, AABB};
use raytrace::aarec::XYRect;
use raytrace::bvh::{BuildError, BvhNode};
use raytrace::constant_medium::ConstantMedium;
use raytrace::cube::Cube;
use raytrace::hittable::{Object, RotateY, Translate};
use raytrace::hittable_list::HittableList;
use raytrace::moving_sphere::MovingSphere;
use raytrace::ray::Ray;
use raytrace::sphere::Sphere;
use raytrace::vec3::Vec3;
use raytrace::SCALE;
use rand::Rng;

const S: i64 = SCALE;

fn v(x: i64, y: i64, z: i64) -> Vec3 {
    Vec3 { x, y, z }
}

fn ray(ox: i64, oy: i64, oz: i64, dx: i64, dy: i64, dz: i64) -> Ray {
    Ray {
        orig: v(ox, oy, oz),
        dir: v(dx, dy, dz),
        tm: 0,
    }
}

#[test]
fn sphere_on_axis_hits_at_half() {
    // A sphere of radius 0.5 at (0, 0, -1), viewed down -z from the
    // origin, is struck at t = 0.5 with an outward normal (0, 0, 1).
    let s = Sphere::with_center_and_radius(v(0, 0, -S), S / 2, 7);
    let r = ray(0, 0, 0, 0, 0, -S);
    let h = s.hit(&r, 0, 100 * S).expect("hit expected");
    assert_eq!(h.t, S / 2);
    assert_eq!(h.normal, v(0, 0, S));
    assert!(h.front_face);
    assert_eq!(h.mat, 7);
    assert_eq!(h.p, v(0, 0, -S / 2));
}

#[test]
fn sphere_window_is_open_at_the_near_root() {
    // Roots at t = 1.5 and t = 2.5.  With t_min exactly on the near
    // root the open window excludes it and the far root is taken;
    // with t_max exactly on it as well, nothing is hit.
    let s = Sphere::with_center_and_radius(v(0, 0, -2 * S), S / 2, 4);
    let r = ray(0, 0, 0, 0, 0, -S);
    let far = s.hit(&r, 3 * S / 2, 100 * S).expect("far root expected");
    assert_eq!(far.t, 5 * S / 2);
    assert!(s.hit(&r, 3 * S / 2, 5 * S / 2).is_none());
}

#[test]
fn rect_window_is_open_at_the_crossing() {
    // The plane crossing sits at t = 1; a window starting exactly
    // there must miss, a window starting just below must hit.
    let rect = XYRect::new(-S, S, -S, S, -S, 5);
    let r = ray(0, 0, 0, 0, 0, -S);
    assert!(rect.hit(&r, S, 100 * S).is_none());
    assert_eq!(rect.hit(&r, S - 1, 100 * S).expect("hit expected").t, S);
}

#[test]
fn sphere_misses_sideways() {
    let s = Sphere::with_center_and_radius(v(0, 0, -2 * S), S / 2, 1);
    let r = ray(0, 2 * S, 0, 0, 0, -S);
    assert!(s.hit(&r, 0, 100 * S).is_none());
}

#[test]
fn aabb_slab_hit_and_miss() {
    let b = AABB {
        minimum: v(-S, -S, -S),
        maximum: v(S, S, S),
    };
    let toward = ray(-3 * S, 0, 0, S, 0, 0);
    assert!(b.hit(&toward, 0, 100 * S));
    let away = ray(-3 * S, 0, 0, -S, 0, 0);
    assert!(!b.hit(&away, 0, 100 * S));
    let offset = ray(-3 * S, 3 * S, 0, S, 0, 0);
    assert!(!b.hit(&offset, 0, 100 * S));
}

#[test]
fn aabb_corner_swap_is_symmetric() {
    let a = v(-S, -2 * S, 3 * S);
    let b = v(S, 2 * S, -3 * S);
    assert_eq!(AABB::new(&a, &b), AABB::new(&b, &a));
}

#[test]
fn aabb_degenerate_plane_hit() {
    // A zero-thickness box still reports a hit for a ray travelling
    // exactly inside its plane.
    let b = AABB {
        minimum: v(-S, -S, 0),
        maximum: v(S, S, 0),
    };
    let in_plane = ray(-3 * S, 0, 0, S, 0, 0);
    assert!(b.hit(&in_plane, 0, 100 * S));
    let above = ray(-3 * S, 0, S, S, 0, 0);
    assert!(!b.hit(&above, 0, 100 * S));
}

#[test]
fn primitive_boxes_are_exact() {
    // The public boxes carry no acceleration padding: the sphere box
    // is center +/- radius, the rectangle box keeps its exact extents
    // with only a tiny thickness along the flat axis, and the cube box
    // is the literal corner-to-corner box.
    let s = Sphere::with_center_and_radius(v(S, 2 * S, -3 * S), S / 2, 1);
    let sb = s.bounding_box(0, S).expect("sphere box");
    assert_eq!(sb.minimum, v(S / 2, 3 * S / 2, -7 * S / 2));
    assert_eq!(sb.maximum, v(3 * S / 2, 5 * S / 2, -5 * S / 2));
    let rect = XYRect::new(-S, S, 0, 2 * S, -3 * S, 2);
    let rb = rect.bounding_box(0, S).expect("rect box");
    assert_eq!((rb.minimum.x, rb.minimum.y), (-S, 0));
    assert_eq!((rb.maximum.x, rb.maximum.y), (S, 2 * S));
    assert_eq!(rb.minimum.z, -3 * S - raytrace::aarec::FLAT_EPS);
    assert_eq!(rb.maximum.z, -3 * S + raytrace::aarec::FLAT_EPS);
    let c = Cube::new(&v(0, 0, 0), &v(S, 2 * S, 3 * S), 3);
    let cb = c.bounding_box(0, S).expect("cube box");
    assert_eq!(cb.minimum, v(0, 0, 0));
    assert_eq!(cb.maximum, v(S, 2 * S, 3 * S));
}

#[test]
fn surrounding_box_is_componentwise_union() {
    let b0 = AABB {
        minimum: v(-S, 0, 0),
        maximum: v(S, S, S),
    };
    let b1 = AABB {
        minimum: v(0, -S, 0),
        maximum: v(2 * S, 0, S / 2),
    };
    let u = surrounding_box(b0, b1);
    assert_eq!(u.minimum, v(-S, -S, 0));
    assert_eq!(u.maximum, v(2 * S, S, S));
}

#[test]
fn list_reports_nearest_sphere() {
    // Three spheres along -z; the ray must report the nearest one's
    // material and parameter.
    let mut list = HittableList::new();
    list.add(Object::Sphere(Sphere::with_center_and_radius(v(0, 0, -6 * S), S / 2, 3)));
    list.add(Object::Sphere(Sphere::with_center_and_radius(v(0, 0, -2 * S), S / 2, 1)));
    list.add(Object::Sphere(Sphere::with_center_and_radius(v(0, 0, -4 * S), S / 2, 2)));
    let r = ray(0, 0, 0, 0, 0, -S);
    let h = list.hit(&r, 0, 100 * S, 0).expect("hit expected");
    assert_eq!(h.mat, 1);
    assert_eq!(h.t, 3 * S / 2);
}

#[test]
fn empty_list_has_no_box() {
    let list = HittableList::new();
    assert!(list.bounding_box(0, S).is_none());
}

#[test]
fn xy_rect_hit_uv() {
    let rect = XYRect::new(0, S, 0, S, -S, 5);
    let r = ray(S / 2, S / 4, 0, 0, 0, -S);
    let h = rect.hit(&r, 0, 100 * S).expect("hit expected");
    assert_eq!(h.t, S);
    assert_eq!(h.u, S / 2);
    assert_eq!(h.v, S / 4);
    assert_eq!(h.normal, v(0, 0, S));
    assert_eq!(h.mat, 5);
}

#[test]
fn cube_hit_through_face() {
    let c = Cube::new(&v(0, 0, 0), &v(S, S, S), 9);
    let r = ray(-S, S / 2, S / 2, S, 0, 0);
    let h = c.hit(&r, 0, 100 * S, 0).expect("hit expected");
    assert_eq!(h.t, S);
    assert_eq!(h.mat, 9);
}

#[test]
fn moving_sphere_interpolates_center() {
    let m = MovingSphere::new(v(0, 0, 0), v(S, 0, 0), 0, S, S / 2, 4);
    assert_eq!(m.center(0), v(0, 0, 0));
    assert_eq!(m.center(S), v(S, 0, 0));
    assert_eq!(m.center(S / 2), v(S / 2, 0, 0));
    // Times outside the motion window clamp to its ends.
    assert_eq!(m.center(2 * S), v(S, 0, 0));
}

#[test]
fn translate_round_trip_on_sphere() {
    let inner = Sphere::with_center_and_radius(v(0, 0, -2 * S), S / 2, 2);
    let off = v(3 * S, S, -S);
    let t = Translate::new(Object::Sphere(inner), &off);
    let r = ray(3 * S, S, -S, 0, 0, -S);
    let h = t.hit(&r, 0, 100 * S, 0).expect("hit expected");
    // The shifted ray against the untranslated sphere.
    let shifted = ray(0, 0, 0, 0, 0, -S);
    let h0 = inner.hit(&shifted, 0, 100 * S).expect("hit expected");
    assert_eq!(h.t, h0.t);
    assert_eq!(h.p.x - off.x, h0.p.x);
    assert_eq!(h.p.y - off.y, h0.p.y);
    assert_eq!(h.p.z - off.z, h0.p.z);
    assert_eq!(h.normal, h0.normal);
}

#[test]
fn rotate_round_trip_hits_within_tolerance() {
    // sin 30 deg and cos 30 deg on the grid.
    let sn: i64 = 32768;
    let cs: i64 = 56756;
    let inner = Sphere::with_center_and_radius(v(2 * S, 0, 0), S / 2, 6);
    let once = RotateY::new(Object::Sphere(inner), sn, cs);
    let back = RotateY::new(Object::RotateY(once), -sn, cs);
    let r = ray(8 * S, 0, 0, -S, 0, 0);
    let h = back.hit(&r, 0, 100 * S, 0).expect("hit expected");
    let h0 = inner.hit(&r, 0, 100 * S).expect("hit expected");
    // 1e-4 relative tolerance, plus a few grid steps for rounding.
    let tol = (h0.t as f64 * 1e-4 + 16.0) as i64;
    assert!((h.t - h0.t).abs() <= tol, "t {} vs {}", h.t, h0.t);
    assert_eq!(h.mat, 6);
}

fn scan_scene() -> Vec<Object> {
    let mut objects: Vec<Object> = Vec::new();
    for i in 0..4 {
        for j in 0..4 {
            let c = v((i * 2 - 3) * S, (j * 2 - 3) * S, -4 * S - (i + j) * S / 2);
            objects.push(Object::Sphere(Sphere::with_center_and_radius(
                c,
                S / 2,
                (i * 4 + j + 1) as u64,
            )));
        }
    }
    objects.push(Object::XYRect(XYRect::new(-8 * S, 8 * S, -8 * S, 8 * S, -12 * S, 99)));
    let box_a = Cube::new(&v(-S, -S, -7 * S), &v(0, 0, -6 * S), 50);
    objects.push(Object::Translate(Translate::new(
        Object::Cube(box_a),
        &v(2 * S, S, 0),
    )));
    let box_b = Cube::new(&v(0, 0, -9 * S), &v(S, S, -8 * S), 51);
    // sin/cos of 30 degrees on the grid.
    objects.push(Object::RotateY(RotateY::new(Object::Cube(box_b), 32768, 56756)));
    objects
}

#[test]
fn bvh_matches_linear_scan_on_random_rays() {
    let list = HittableList { objects: scan_scene() };
    let node = BvhNode::with_hittable_vec(scan_scene(), 0, S).expect("buildable scene");
    let bvh = Object::Bvh(node);
    let mut rng = rand::thread_rng();
    for _ in 0..10000 {
        let o = v(
            rng.gen_range(-8 * S..8 * S),
            rng.gen_range(-8 * S..8 * S),
            rng.gen_range(0..2 * S),
        );
        let d = v(
            rng.gen_range(-S..=S),
            rng.gen_range(-S..=S),
            rng.gen_range(-2 * S..=-S / 4),
        );
        let r = Ray { orig: o, dir: d, tm: 0 };
        let brute = list.hit(&r, 7, 1000 * S, 0);
        let fast = bvh.hit(&r, 7, 1000 * S, 0);
        match (&brute, &fast) {
            (None, None) => {}
            (Some(a), Some(b)) => {
                assert_eq!(a.t, b.t, "ray {:?}", r);
                assert_eq!(a.mat, b.mat, "ray {:?}", r);
            }
            _ => panic!("mismatch {:?} vs {:?} for ray {:?}", brute, fast, r),
        }
    }
}

#[test]
fn bvh_build_rejects_unbounded_child() {
    // An empty inner list has no bounding box, so the builder must
    // fail loudly instead of building a wrong tree.
    let objects = vec![
        Object::Sphere(Sphere::with_center_and_radius(v(0, 0, 0), S, 1)),
        Object::List(HittableList::new()),
    ];
    let res = BvhNode::with_hittable_vec(objects, 0, S);
    assert_eq!(res.unwrap_err(), BuildError::NoBoundingBox);
}

#[test]
fn constant_medium_hit_depends_on_sample() {
    // Boundary of thickness 2 units along the ray: a free flight of
    // 1 unit scatters inside, 3 units escapes.
    let boundary = Object::Sphere(Sphere::with_center_and_radius(v(0, 0, 0), S, 0));
    let cm = ConstantMedium::new(boundary, S / 2, 8);
    let r = ray(-2 * S, 0, 0, S, 0, 0);
    let inside = cm.hit(&r, 0, 100 * S, S).expect("short flight scatters");
    assert_eq!(inside.mat, 8);
    assert!(inside.t >= S && inside.t <= 3 * S);
    assert!(cm.hit(&r, 0, 100 * S, 3 * S + 16).is_none());
}

#[test]
fn constant_medium_statistics_match_exponential() {
    // For density d and thickness L along the ray the hit fraction
    // converges to 1 - exp(-d L); here d = 0.5 per unit and L = 2.
    let boundary = Object::Sphere(Sphere::with_center_and_radius(v(0, 0, 0), S, 0));
    let density = 0.5f64;
    let cm = ConstantMedium::new(boundary, (density * S as f64) as i64, 8);
    let r = ray(-2 * S, 0, 0, S, 0, 0);
    let mut rng = rand::thread_rng();
    let trials = 20000;
    let mut hits = 0;
    for _ in 0..trials {
        let u: f64 = rng.gen_range(1e-12..1.0);
        let flight_units = -u.ln() / density;
        let sample = (flight_units * S as f64) as i64;
        if cm.hit(&r, 0, 100 * S, sample.max(0)).is_some() {
            hits += 1;
        }
    }
    let fraction = hits as f64 / trials as f64;
    let expected = 1.0 - (-density * 2.0f64).exp();
    assert!(
        (fraction - expected).abs() < 0.02,
        "fraction {} expected {}",
        fraction,
        expected
    );
}

#[test]
fn vector_length_is_exact_for_pythagorean_triple() {
    let p = v(3 * S, 4 * S, 0);
    assert_eq!(p.length(), 5 * S);
    assert_eq!(Vec3::dot(&v(S, 0, 0), &v(0, S, 0)), 0);
    let c = Vec3::cross(&v(S, 0, 0), &v(0, S, 0));
    assert_eq!(c, v(0, 0, S));
}

#[test]
fn ray_evaluates_points_on_the_grid() {
    let r = ray(S, 2 * S, 3 * S, S, -S, 0);
    assert_eq!(r.at(S / 2), v(S + S / 2, 2 * S - S / 2, 3 * S));
    assert_eq!(r.origin(), v(S, 2 * S, 3 * S));
    assert_eq!(r.direction(), v(S, -S, 0));
    assert_eq!(r.time(), 0);
}
