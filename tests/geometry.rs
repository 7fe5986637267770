use raytracer::geometry::{cover, BoundBox, Cover, Sphere};
use raytracer::intervals::Interval;
use raytracer::vector::Vec3;

/// Fixed-point coordinates in units of 1/1024.
fn fx(v: f64) -> i64 {
    (v * 1024.0) as i64
}

fn iv(start: f64, end: f64) -> Interval {
    Interval::new(fx(start), fx(end))
}

#[test]
fn test_bbox_cover() {
    let bbox1 = BoundBox([iv(0.0, 1.0), iv(0.0, 1.0), iv(0.0, 1.0)]);
    let bbox2 = BoundBox([iv(-1.0, 1.0), iv(0.0, 2.0), iv(-1.0, 0.0)]);
    let bbox3 = BoundBox([iv(-1.0, 1.0), iv(0.0, 2.0), iv(-1.0, 1.0)]);

    let new_bbox = cover(&bbox1, &bbox2);

    assert_eq!(new_bbox.0[0].start, bbox3.0[0].start);
    assert_eq!(new_bbox.0[0].end, bbox3.0[0].end);
    assert_eq!(new_bbox.0[1].start, bbox3.0[1].start);
    assert_eq!(new_bbox.0[1].end, bbox3.0[1].end);
    assert_eq!(new_bbox.0[2].start, bbox3.0[2].start);
    assert_eq!(new_bbox.0[2].end, bbox3.0[2].end);
}

#[test]
fn sphere_covering_reaches_radius_on_each_axis() {
    let sphere = Sphere::new(Vec3([1, 2, 3]), 2);
    let bbox = sphere.make_covering(7);
    assert_eq!(bbox.dims, [Interval::new(-1, 3), Interval::new(0, 4), Interval::new(1, 5)]);
    assert_eq!(bbox.boxed, Some(7));
}

#[test]
fn sphere_covering_at_coordinate_limits() {
    let sphere = Sphere::new(Vec3([i64::MAX - 5, i64::MIN + 5, 0]), 5);
    let bbox = sphere.make_covering(0);
    assert_eq!(bbox.dims[0], Interval::new(i64::MAX - 10, i64::MAX));
    assert_eq!(bbox.dims[1], Interval::new(i64::MIN, i64::MIN + 10));
    assert_eq!(bbox.dims[2], Interval::new(-5, 5));
}
