use floating_layer::geometry::{PixelRect, ADJACENCY_EPSILON};
use floating_layer::silhouette::build_silhouette;

#[test]
fn epsilon_is_one_pixel() {
    assert_eq!(ADJACENCY_EPSILON, 1);
}

#[test]
fn overlapping_regions_touch() {
    let a = PixelRect::new(0, 0, 10, 10);
    let b = PixelRect::new(5, 5, 15, 15);
    assert!(a.touches(&b));
    assert!(b.touches(&a));
}

#[test]
fn regions_sharing_an_edge_touch() {
    let a = PixelRect::new(0, 0, 10, 10);
    let b = PixelRect::new(10, 0, 20, 10);
    assert!(a.touches(&b));
    assert!(b.touches(&a));
}

#[test]
fn regions_sharing_a_corner_touch() {
    let a = PixelRect::new(0, 0, 10, 10);
    let b = PixelRect::new(10, 10, 20, 20);
    assert!(a.touches(&b));
    assert!(b.touches(&a));
}

#[test]
fn regions_one_pixel_apart_do_not_touch() {
    let a = PixelRect::new(0, 0, 10, 10);
    let b = PixelRect::new(11, 0, 20, 10);
    assert!(!a.touches(&b));
    assert!(!b.touches(&a));
}

#[test]
fn regions_apart_on_one_axis_do_not_touch() {
    let a = PixelRect::new(0, 0, 10, 10);
    let b = PixelRect::new(0, 12, 10, 20);
    assert!(!a.touches(&b));
}

#[test]
fn region_touches_itself() {
    let a = PixelRect::new(-3, -4, 7, 9);
    assert!(a.touches(&a));
}

#[test]
fn empty_region_touches_when_it_is_the_one_grown() {
    let point = PixelRect::new(5, 5, 5, 5);
    let big = PixelRect::new(0, 0, 10, 10);
    assert!(point.touches(&big));
    assert!(!big.touches(&point));
    assert!(!point.touches(&point));
}

#[test]
fn touches_at_the_ends_of_the_coordinate_range() {
    let low = PixelRect::new(i32::MIN, i32::MIN, i32::MIN + 1, i32::MIN + 1);
    let high = PixelRect::new(i32::MAX - 1, i32::MAX - 1, i32::MAX, i32::MAX);
    let all = PixelRect::new(i32::MIN, i32::MIN, i32::MAX, i32::MAX);
    assert!(!low.touches(&high));
    assert!(low.touches(&all));
    assert!(all.touches(&high));
    assert!(all.touches(&all));
}

#[test]
fn join_takes_the_outer_corners() {
    let a = PixelRect::new(0, 5, 10, 15);
    let b = PixelRect::new(-2, 7, 8, 30);
    assert_eq!(a.join(&b), PixelRect::new(-2, 5, 10, 30));
    assert_eq!(b.join(&a), PixelRect::new(-2, 5, 10, 30));
    assert_eq!(a.join(&a), a);
}

#[test]
fn silhouette_of_one_region_is_bounded_by_it() {
    let regions = vec![PixelRect::new(3, 4, 5, 6)];
    let silhouette = build_silhouette(&regions);
    assert_eq!(silhouette.regions, regions);
    assert_eq!(silhouette.bounds, PixelRect::new(3, 4, 5, 6));
}

#[test]
fn silhouette_bounds_enclose_all_regions() {
    let regions = vec![
        PixelRect::new(10, 10, 20, 20),
        PixelRect::new(0, 15, 12, 18),
        PixelRect::new(15, 5, 40, 11),
    ];
    let silhouette = build_silhouette(&regions);
    assert_eq!(silhouette.regions, regions);
    assert_eq!(silhouette.bounds, PixelRect::new(0, 5, 40, 20));
}

#[test]
fn silhouette_bounds_count_empty_regions() {
    let regions = vec![PixelRect::new(10, 10, 20, 20), PixelRect::new(50, 60, 50, 60)];
    let silhouette = build_silhouette(&regions);
    assert_eq!(silhouette.bounds, PixelRect::new(10, 10, 50, 60));
}
