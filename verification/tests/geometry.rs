use raypix::color::Rgb8;
use raypix::fixed::SCALE;
use raypix::object::{Object, Shape};
use raypix::xyz::Xyz;

fn v(x: i64, y: i64, z: i64) -> Xyz {
    Xyz { x, y, z }
}

fn gray(n: u8) -> Rgb8 {
    Rgb8 { r: n, g: n, b: n }
}

#[test]
fn plane_parallel_ray_misses() {
    // Plane with normal along +z; ray running along +x is parallel to it.
    let plane = Object::new_plane(v(0, 0, SCALE), gray(50), 2 * SCALE, SCALE, false);
    let hit = plane.check(v(0, 0, 0), v(SCALE, 0, 0));
    assert!(hit.is_none());
}

#[test]
fn plane_frontal_ray_hits() {
    // Plane x == 4, ray along +x from the origin: hit at distance 4.
    let plane = Object::new_plane(v(SCALE, 0, 0), gray(50), 4 * SCALE, SCALE, false);
    let hit = plane.check(v(0, 0, 0), v(SCALE, 0, 0)).unwrap();
    assert_eq!(hit.t, 4 * SCALE);
    assert_eq!(hit.n, v(SCALE, 0, 0));
    assert_eq!(hit.hit, v(4 * SCALE, 0, 0));
}

#[test]
fn plane_behind_origin_misses() {
    let plane = Object::new_plane(v(SCALE, 0, 0), gray(50), -4 * SCALE, SCALE, false);
    assert!(plane.check(v(0, 0, 0), v(SCALE, 0, 0)).is_none());
}

#[test]
fn sphere_head_on_hit_distance_and_normal() {
    // Radius 2 at the origin, ray from (-4, 0, 0) toward +x:
    // the hit is at distance 2 with normal (-1, 0, 0).
    let r = 2 * SCALE;
    let sphere = Object::new_sphere(v(0, 0, 0), gray(77), r, SCALE, false);
    let hit = sphere.check(v(-2 * r, 0, 0), v(SCALE, 0, 0)).unwrap();
    assert_eq!(hit.t, r);
    assert_eq!(hit.n, v(-SCALE, 0, 0));
    assert_eq!(hit.hit, v(-r, 0, 0));
    match hit.hit_obj.shape {
        Shape::Sphere { radius, .. } => assert_eq!(radius, r),
        _ => panic!("wrong shape"),
    }
}

#[test]
fn sphere_ray_pointing_away_misses() {
    let sphere = Object::new_sphere(v(0, 0, 0), gray(77), 2 * SCALE, SCALE, false);
    assert!(sphere.check(v(-8 * SCALE, 0, 0), v(-SCALE, 0, 0)).is_none());
}

fn unit_triangle(light: bool) -> Object {
    // Vertices (1,0,0), (1,1,0), (1,0,1): a ray along +x from (0, u, v)
    // meets its plane with barycentric coordinates exactly (u, v).
    Object::new_triangle(
        v(-SCALE, 0, 0),
        gray(99),
        v(SCALE, 0, 0),
        v(SCALE, SCALE, 0),
        v(SCALE, 0, SCALE),
        SCALE,
        light,
    )
}

#[test]
fn triangle_inside_hit() {
    let tri = unit_triangle(false);
    let hit = tri.check(v(0, SCALE / 4, SCALE / 4), v(SCALE, 0, 0)).unwrap();
    assert_eq!(hit.t, SCALE);
    // The reported normal is the stored hint, not a derived face normal.
    assert_eq!(hit.n, v(-SCALE, 0, 0));
    assert_eq!(hit.hit, v(SCALE, SCALE / 4, SCALE / 4));
}

#[test]
fn triangle_u_below_zero_misses() {
    let tri = unit_triangle(false);
    assert!(tri.check(v(0, -SCALE / 2, SCALE / 4), v(SCALE, 0, 0)).is_none());
}

#[test]
fn triangle_v_below_zero_misses() {
    let tri = unit_triangle(false);
    assert!(tri.check(v(0, SCALE / 4, -SCALE / 2), v(SCALE, 0, 0)).is_none());
}

#[test]
fn triangle_u_plus_v_above_one_misses() {
    let tri = unit_triangle(false);
    assert!(tri.check(v(0, 3 * SCALE / 4, 3 * SCALE / 4), v(SCALE, 0, 0)).is_none());
}

#[test]
fn triangle_parallel_ray_misses() {
    let tri = unit_triangle(false);
    assert!(tri.check(v(0, SCALE / 4, SCALE / 4), v(0, SCALE, 0)).is_none());
}

#[test]
fn reflect_is_involutive_on_unit_axis_normal() {
    let n = v(SCALE, 0, 0);
    let w = v(SCALE, 2048, 1024);
    let once = w.reflect(n);
    assert_eq!(once, v(-SCALE, 2048, 1024));
    let twice = once.reflect(n);
    assert_eq!(twice, w);
}

#[test]
fn normalize_zero_vector_is_zero() {
    let z = Xyz::null();
    assert_eq!(z.norm(), v(0, 0, 0));
}

#[test]
fn normalize_345_vector() {
    let w = v(3 * SCALE, 4 * SCALE, 0);
    assert_eq!(w.length(), 5 * SCALE);
    let n = w.norm();
    // 3/5 and 4/5, truncated on the fixed-point grid.
    assert_eq!(n, v(2457, 3276, 0));
}

#[test]
fn dot_and_cross_exact_values() {
    let a = v(SCALE, 2 * SCALE, 3 * SCALE);
    let b = v(4 * SCALE, -5 * SCALE, 6 * SCALE);
    assert_eq!(a.dot(b), (4 - 10 + 18) * SCALE);
    assert_eq!(a.cross(b), v(27 * SCALE, 6 * SCALE, -13 * SCALE));
}

#[test]
fn vector_componentwise_operations() {
    let a = v(10, 20, 30);
    let b = v(1, 2, 3);
    assert_eq!(a.xyz_add(b), v(11, 22, 33));
    assert_eq!(a.xyz_sub(b), v(9, 18, 27));
    assert_eq!(a.add(5), v(15, 25, 35));
    assert_eq!(a.sub(5), v(5, 15, 25));
    assert_eq!(v(SCALE, 2 * SCALE, 3 * SCALE).mul(2 * SCALE), v(2 * SCALE, 4 * SCALE, 6 * SCALE));
    assert_eq!(v(4 * SCALE, 8 * SCALE, 0).div(2 * SCALE), v(2 * SCALE, 4 * SCALE, 0));
    assert_eq!(
        v(2 * SCALE, 3 * SCALE, 4 * SCALE).xyz_mul(v(SCALE / 2, SCALE, 2 * SCALE)),
        v(SCALE, 3 * SCALE, 8 * SCALE)
    );
    assert_eq!(Xyz::to_xyz([7, 8, 9]), v(7, 8, 9));
    assert_eq!(Xyz::new([7, 8, 9]), v(7, 8, 9));
}

#[test]
fn object_equality_is_non_reflexive() {
    let sphere = Object::new_sphere(v(SCALE, 2 * SCALE, 0), gray(10), SCALE, SCALE, false);
    let plane = Object::new_plane(v(SCALE, 2 * SCALE, 0), gray(20), SCALE, SCALE, false);
    // Same anchor position and same kind: never equal to itself.
    assert!(!sphere.obj_eq(&sphere));
    assert!(!plane.obj_eq(&plane));
    // Same anchor position, different kind: equal under the reference rule.
    assert!(sphere.obj_eq(&plane));
    // The inequality is not the negation of the equality.
    assert!(!sphere.obj_ne(&sphere));
    assert!(!sphere.obj_ne(&plane));
    let far_plane = Object::new_plane(v(0, 0, SCALE), gray(20), SCALE, SCALE, false);
    assert!(sphere.obj_ne(&far_plane));
}
