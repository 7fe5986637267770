use raytracer::boundingvolume::{
    make_all_covering, make_coveringtree, sort_on_index, split_on_covering, tree_filter, BoundingBox,
    CoveringTree,
};
use raytracer::intervals::Interval;
use raytracer::ray::Ray;
use raytracer::vector::Vec3;

fn unit_box_at(x: i64, y: i64, z: i64, id: usize) -> BoundingBox {
    BoundingBox::with_payload(
        [Interval::new(x, x + 4), Interval::new(y, y + 4), Interval::new(z, z + 4)],
        id,
    )
}

fn height(tree: &CoveringTree) -> usize {
    let l = tree.left.as_ref().map_or(0, |t| height(t));
    let r = tree.right.as_ref().map_or(0, |t| height(t));
    1 + l.max(r)
}

fn collect_leaves(tree: &CoveringTree, out: &mut Vec<BoundingBox>) {
    if tree.left.is_none() && tree.right.is_none() {
        out.push(tree.cover);
    }
    if let Some(l) = &tree.left {
        collect_leaves(l, out);
    }
    if let Some(r) = &tree.right {
        collect_leaves(r, out);
    }
}

fn check_nodes(tree: &CoveringTree) {
    if tree.left.is_some() || tree.right.is_some() {
        assert!(tree.left.is_some() && tree.right.is_some());
        assert_eq!(tree.cover.boxed, None);
        let mut leaves = Vec::new();
        collect_leaves(tree, &mut leaves);
        let expected = make_all_covering(&leaves);
        assert!(tree.cover == expected);
        check_nodes(tree.left.as_ref().unwrap());
        check_nodes(tree.right.as_ref().unwrap());
    }
}

#[test]
fn walk_reports_every_box_the_ray_hits() {
    let mut boxes: Vec<BoundingBox> = (0..7)
        .map(|i| {
            BoundingBox::with_payload(
                [
                    Interval::new(10 * i, 10 * i + 3 + i),
                    Interval::new(-1 - i, 1),
                    Interval::new(-2, 2 + i),
                ],
                i as usize,
            )
        })
        .collect();
    let n = boxes.len();
    let tree = make_coveringtree(&mut boxes);
    let ray = Ray::new(Vec3([-5, 0, 0]), Vec3([3, 0, 0]));
    let mut found = Vec::new();
    tree_filter(&tree, &mut found, &ray);
    assert_eq!(found.len(), n);
    found.sort();
    assert_eq!(found, (0..n).collect::<Vec<usize>>());
}

#[test]
fn walk_prunes_missed_boxes() {
    let mut boxes = vec![unit_box_at(0, 0, 0, 0), unit_box_at(100, 100, 100, 1), unit_box_at(0, 50, 0, 2)];
    let tree = make_coveringtree(&mut boxes);
    let ray = Ray::new(Vec3([-10, 2, 2]), Vec3([1, 0, 0]));
    let mut found = vec![99];
    tree_filter(&tree, &mut found, &ray);
    assert_eq!(found, vec![99, 0]);
}

#[test]
fn every_internal_cover_is_the_covering_of_its_leaves() {
    let mut boxes: Vec<BoundingBox> =
        (0..9).map(|i| unit_box_at(7 * i - 20, (i * i) % 11, 3 - 2 * i, i as usize)).collect();
    let tree = make_coveringtree(&mut boxes);
    check_nodes(&tree);
    let mut leaves = Vec::new();
    collect_leaves(&tree, &mut leaves);
    assert_eq!(leaves.len(), 9);
    for (leaf, b) in leaves.iter().zip(boxes.iter()) {
        assert!(leaf == b);
        assert_eq!(leaf.boxed, b.boxed);
    }
}

#[test]
fn tree_depth_is_logarithmic() {
    for (n, expected) in [(1usize, 1usize), (2, 2), (3, 3), (4, 3), (5, 4), (8, 4), (9, 5), (16, 5), (17, 6)] {
        let mut boxes: Vec<BoundingBox> = (0..n).map(|i| unit_box_at(5 * i as i64, 0, 0, i)).collect();
        let tree = make_coveringtree(&mut boxes);
        assert_eq!(height(&tree), expected);
        let mut leaves = Vec::new();
        collect_leaves(&tree, &mut leaves);
        assert_eq!(leaves.len(), n);
        let mut ids: Vec<usize> = leaves.iter().map(|b| b.boxed.unwrap()).collect();
        ids.sort();
        assert_eq!(ids, (0..n).collect::<Vec<usize>>());
    }
}

#[test]
fn single_box_gives_a_leaf() {
    let mut boxes = vec![unit_box_at(1, 2, 3, 4)];
    let tree = make_coveringtree(&mut boxes);
    assert!(tree.left.is_none() && tree.right.is_none());
    assert_eq!(tree.cover.boxed, Some(4));
    assert_eq!(tree.cover.dims, unit_box_at(1, 2, 3, 4).dims);
}

#[test]
fn covering_spans_the_origin() {
    let boxes = [unit_box_at(10, 10, 10, 0), unit_box_at(20, 12, 11, 1)];
    let c = make_all_covering(&boxes);
    assert_eq!(c.dims, [Interval::new(0, 24), Interval::new(0, 16), Interval::new(0, 15)]);
    assert_eq!(c.boxed, None);
    assert!(make_all_covering(&[]) == BoundingBox::empty());
}

#[test]
fn grazing_a_corner_is_no_hit() {
    let bbox = BoundingBox::with_dims([Interval::new(0, 1), Interval::new(0, 1), Interval::new(0, 1)]);
    let corner = Ray::new(Vec3([2, 0, 0]), Vec3([1, -1, 0]));
    assert!(!bbox.check_intersection(&corner));
    let through = Ray::new(Vec3([2, 0, 0]), Vec3([2, -1, 0]));
    assert!(bbox.check_intersection(&through));
}

#[test]
fn line_along_a_face_hits() {
    let bbox = BoundingBox::with_dims([Interval::new(0, 4), Interval::new(0, 4), Interval::new(0, 4)]);
    let along_top = Ray::new(Vec3([-3, 4, 2]), Vec3([1, 0, 0]));
    assert!(bbox.check_intersection(&along_top));
    let above = Ray::new(Vec3([-3, 5, 2]), Vec3([1, 0, 0]));
    assert!(!bbox.check_intersection(&above));
}

#[test]
fn flat_box_is_hit_only_along_its_plane() {
    let flat = BoundingBox::with_dims([Interval::new(0, 4), Interval::new(0, 4), Interval::new(2, 2)]);
    let across = Ray::new(Vec3([1, 1, -5]), Vec3([0, 0, 1]));
    assert!(!flat.check_intersection(&across));
    let within = Ray::new(Vec3([-5, 1, 2]), Vec3([1, 0, 0]));
    assert!(flat.check_intersection(&within));
}

#[test]
fn zero_direction_tests_the_origin() {
    let bbox = BoundingBox::with_dims([Interval::new(0, 4), Interval::new(0, 4), Interval::new(0, 4)]);
    assert!(bbox.check_intersection(&Ray::new(Vec3([1, 1, 1]), Vec3([0, 0, 0]))));
    assert!(!bbox.check_intersection(&Ray::new(Vec3([5, 1, 1]), Vec3([0, 0, 0]))));
}

#[test]
fn slab_test_at_coordinate_limits() {
    let bbox = BoundingBox::with_dims([
        Interval::new(i64::MAX - 1, i64::MAX),
        Interval::new(i64::MIN, i64::MIN + 1),
        Interval::new(-1, 1),
    ]);
    let ray = Ray::new(Vec3([i64::MIN, i64::MAX, 0]), Vec3([i64::MAX, i64::MIN, 0]));
    assert!(!bbox.check_intersection(&ray));
    let along = Ray::new(Vec3([i64::MIN, i64::MIN, 0]), Vec3([i64::MAX, 0, 0]));
    assert!(bbox.check_intersection(&along));
}

#[test]
fn equality_ignores_payload() {
    let a = unit_box_at(0, 0, 0, 1);
    let b = unit_box_at(0, 0, 0, 2);
    assert!(a == b);
    assert!(a != unit_box_at(1, 0, 0, 1));
    assert!(BoundingBox::default() == BoundingBox::empty());
    assert_eq!(a.dims_copy().boxed, None);
}

#[test]
fn ray_keeps_its_direction() {
    let r = Ray::new(Vec3([1, 2, 3]), Vec3([4, -5, 0]));
    assert_eq!(r.orig, Vec3([1, 2, 3]));
    assert_eq!(r.dir, Vec3([4, -5, 0]));
}

#[test]
fn sorting_with_equal_extents() {
    let mut list = [
        unit_box_at(9, 0, 0, 0),
        BoundingBox::with_payload([Interval::new(0, 1), Interval::new(0, 4), Interval::new(0, 4)], 1),
        unit_box_at(-3, 0, 0, 2),
        BoundingBox::with_payload([Interval::new(0, 9), Interval::new(0, 4), Interval::new(0, 4)], 3),
        unit_box_at(5, 5, 5, 4),
    ];
    sort_on_index(&mut list, 0);
    let sizes: Vec<i128> = list.iter().map(|b| b.dims[0].size()).collect();
    assert_eq!(sizes, vec![1, 4, 4, 4, 9]);
    let ids: Vec<usize> = list.iter().map(|b| b.boxed.unwrap()).collect();
    assert_eq!(ids, vec![1, 0, 2, 4, 3]);
}

#[test]
fn splitting_an_odd_count_puts_fewer_left() {
    let mut list: Vec<BoundingBox> = (0..5)
        .map(|i| BoundingBox::with_payload([Interval::new(0, 50), Interval::new(0, 100 - 10 * i), Interval::new(0, 1)], i as usize))
        .collect();
    let halfway = split_on_covering(&mut list);
    assert_eq!(halfway, 2);
    let ids: Vec<usize> = list.iter().map(|b| b.boxed.unwrap()).collect();
    assert_eq!(ids, vec![4, 3, 2, 1, 0]);
}

#[test]
fn identical_boxes_all_reach_the_leaves() {
    let mut boxes: Vec<BoundingBox> = (0..6).map(|i| unit_box_at(2, 2, 2, i)).collect();
    let tree = make_coveringtree(&mut boxes);
    check_nodes(&tree);
    let ray = Ray::new(Vec3([0, 3, 3]), Vec3([1, 0, 0]));
    let mut found = Vec::new();
    tree_filter(&tree, &mut found, &ray);
    found.sort();
    assert_eq!(found, vec![0, 1, 2, 3, 4, 5]);
}
