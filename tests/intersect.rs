use voxel_octree::cube::{Cube, Distance, Ray, RAY_UNITS_PER_VOXEL};

const U: i64 = RAY_UNITS_PER_VOXEL;

fn ray(origin: [i64; 3], velocity: [i64; 3]) -> Ray {
    Ray { origin, velocity, distance: None, color: 0 }
}

fn boxed(min: [i32; 3], max: [i32; 3], color: u32) -> Cube {
    Cube { min, max, color }
}

fn value(d: &Distance) -> f64 {
    d.num as f64 / d.den as f64
}

#[test]
fn axis_ray_hits_box_at_five() {
    let mut r = ray([0, 0, 0], [U, 0, 0]);
    boxed([5, -1, -1], [6, 1, 1], 77).intersect_ray(&mut r);
    let d = r.distance.unwrap();
    assert_eq!(d.num, 5 * d.den);
    assert_eq!(value(&d), 5.0);
    assert_eq!(r.color, 77);
}

#[test]
fn parallel_axes_outside_slab_miss() {
    let mut r = ray([0, 0, 0], [U, 0, 0]);
    boxed([5, 2, 2], [6, 3, 3], 77).intersect_ray(&mut r);
    assert!(r.distance.is_none());
    assert_eq!(r.color, 0);
}

#[test]
fn degenerate_ray_misses_without_division() {
    let mut r = ray([0, 0, 0], [0, 0, 0]);
    boxed([5, -1, -1], [6, 1, 1], 77).intersect_ray(&mut r);
    assert!(r.distance.is_none());
    let mut inside = ray([0, 0, 0], [0, 0, 0]);
    boxed([-1, -1, -1], [1, 1, 1], 5).intersect_ray(&mut inside);
    assert!(inside.distance.is_none());
}

#[test]
fn origin_inside_box_hits_at_negative_entry() {
    let mut r = ray([U / 2, U / 2, U / 2], [U, 0, 0]);
    boxed([0, 0, 0], [1, 1, 1], 9).intersect_ray(&mut r);
    let d = r.distance.unwrap();
    assert_eq!(value(&d), -0.5);
    assert_eq!(r.color, 9);
}

#[test]
fn box_behind_origin_is_missed() {
    let mut r = ray([0, 0, 0], [U, 0, 0]);
    boxed([-6, -1, -1], [-5, 1, 1], 9).intersect_ray(&mut r);
    assert!(r.distance.is_none());
}

#[test]
fn negative_velocity_enters_at_max_face() {
    let mut r = ray([10 * U, 0, 0], [-2 * U, 0, 0]);
    boxed([2, -1, -1], [4, 1, 1], 3).intersect_ray(&mut r);
    let d = r.distance.unwrap();
    assert_eq!(value(&d), 3.0);
}

#[test]
fn diagonal_ray_takes_latest_entry() {
    let mut r = ray([0, 0, 0], [U, 2 * U, 0]);
    boxed([1, 4, -1], [10, 10, 1], 3).intersect_ray(&mut r);
    let d = r.distance.unwrap();
    assert_eq!(value(&d), 2.0);
    let mut miss = ray([0, 0, 0], [U, 2 * U, 0]);
    boxed([5, 0, -1], [6, 2, 1], 3).intersect_ray(&mut miss);
    assert!(miss.distance.is_none());
}

#[test]
fn only_strictly_nearer_hits_replace_the_best() {
    let near = boxed([3, -1, -1], [4, 1, 1], 1);
    let far = boxed([7, -1, -1], [8, 1, 1], 2);
    let same = boxed([3, -2, -2], [5, 2, 2], 3);
    let mut r = ray([0, 0, 0], [U, 0, 0]);
    near.intersect_ray(&mut r);
    far.intersect_ray(&mut r);
    assert_eq!(value(r.distance.as_ref().unwrap()), 3.0);
    assert_eq!(r.color, 1);
    same.intersect_ray(&mut r);
    assert_eq!(r.color, 1);
    let mut r2 = ray([0, 0, 0], [U, 0, 0]);
    far.intersect_ray(&mut r2);
    near.intersect_ray(&mut r2);
    assert_eq!(value(r2.distance.as_ref().unwrap()), 3.0);
    assert_eq!(r2.color, 1);
}

#[test]
fn new_cube_at_is_a_unit_voxel() {
    let c = Cube::new_cube_at(&[-3, 4, 5], 0x11223344);
    assert_eq!(c.min, [-3, 4, 5]);
    assert_eq!(c.max, [-2, 5, 6]);
    assert_eq!(c.color, 0x11223344);
}
