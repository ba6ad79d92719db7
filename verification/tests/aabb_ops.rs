use flat_bvh::aabb::{Axis, AABB, Vec3i};

#[test]
fn union_takes_componentwise_extremes() {
    let a = AABB::from_bounds(Vec3i::new(-1, 2, 3), Vec3i::new(4, 5, 6));
    let b = AABB::from_bounds(Vec3i::new(0, -7, 4), Vec3i::new(2, 9, 5));
    let u = AABB::union(&a, &b);
    assert_eq!(u.min, Vec3i::new(-1, -7, 3));
    assert_eq!(u.max, Vec3i::new(4, 9, 6));
}

#[test]
fn extend_equals_union() {
    let mut a = AABB::from_bounds(Vec3i::new(0, 0, 0), Vec3i::new(1, 1, 1));
    let b = AABB::from_bounds(Vec3i::new(-3, 2, -2), Vec3i::new(0, 4, 1));
    let u = AABB::union(&a, &b);
    a.extend(&b);
    assert_eq!(a, u);
}

#[test]
fn extend_never_shrinks() {
    let mut a = AABB::from_bounds(Vec3i::new(-5, -5, -5), Vec3i::new(5, 5, 5));
    let inner = AABB::from_bounds(Vec3i::new(-1, -1, -1), Vec3i::new(1, 1, 1));
    a.extend(&inner);
    assert_eq!(a.min, Vec3i::new(-5, -5, -5));
    assert_eq!(a.max, Vec3i::new(5, 5, 5));
}

#[test]
fn largest_axis_picks_widest() {
    let b = AABB::from_bounds(Vec3i::new(0, 0, 0), Vec3i::new(1, 5, 2));
    assert_eq!(b.largest_axis(), Axis::Y);
    let b = AABB::from_bounds(Vec3i::new(0, 0, 0), Vec3i::new(1, 2, 9));
    assert_eq!(b.largest_axis(), Axis::Z);
    let b = AABB::from_bounds(Vec3i::new(-9, 0, 0), Vec3i::new(1, 2, 3));
    assert_eq!(b.largest_axis(), Axis::X);
}

#[test]
fn largest_axis_ties_prefer_x_then_y() {
    // all equal: X wins
    let b = AABB::from_bounds(Vec3i::new(0, 0, 0), Vec3i::new(4, 4, 4));
    assert_eq!(b.largest_axis(), Axis::X);
    // Y and Z tied ahead of X: Y wins
    let b = AABB::from_bounds(Vec3i::new(0, 0, 0), Vec3i::new(1, 4, 4));
    assert_eq!(b.largest_axis(), Axis::Y);
    // X and Y tied: X wins
    let b = AABB::from_bounds(Vec3i::new(0, 0, 0), Vec3i::new(4, 4, 1));
    assert_eq!(b.largest_axis(), Axis::X);
}

#[test]
fn center_is_midpoint_rounded_toward_min() {
    let b = AABB::from_bounds(Vec3i::new(0, -3, 10), Vec3i::new(4, 0, 11));
    assert_eq!(b.center(), Vec3i::new(2, -2, 10));
}

#[test]
fn accessors_report_corners_and_sizes() {
    let b = AABB::from_bounds(Vec3i::new(-2, 3, -4), Vec3i::new(5, 7, 6));
    assert_eq!(b.get_min(), Vec3i::new(-2, 3, -4));
    assert_eq!(b.get_max(), Vec3i::new(5, 7, 6));
    assert_eq!(b.min_x(), -2);
    assert_eq!(b.min_y(), 3);
    assert_eq!(b.min_z(), -4);
    assert_eq!(b.max_x(), 5);
    assert_eq!(b.max_y(), 7);
    assert_eq!(b.max_z(), 6);
    assert_eq!(b.size_x(), 7);
    assert_eq!(b.size_y(), 4);
    assert_eq!(b.size_z(), 10);
}
