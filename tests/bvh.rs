use rayrs::bbox::{order_key, BBox, Coords};
use rayrs::bvh::{nearest_by_scan, BVH, MAX_PRIMITIVES};

fn key(v: f64) -> u64 {
    order_key(v.to_bits())
}

fn value(k: u64) -> f64 {
    f64::from_bits(rayrs::bbox::bits_of_key(k))
}

/// Unit cubes at the given corners, with their centers.
fn cubes(corners: &[(f64, f64, f64)]) -> (Vec<BBox>, Vec<Coords>) {
    let mut boxes = Vec::new();
    let mut centers = Vec::new();
    for &(x, y, z) in corners {
        boxes.push(BBox::new(
            Coords::new(key(x), key(y), key(z)),
            Coords::new(key(x + 1.0), key(y + 1.0), key(z + 1.0)),
        ));
        centers.push(Coords::new(key(x + 0.5), key(y + 0.5), key(z + 0.5)));
    }
    (boxes, centers)
}

fn longest_axis(b: &BBox) -> usize {
    let dx = value(b.max.x) - value(b.min.x);
    let dy = value(b.max.y) - value(b.min.y);
    let dz = value(b.max.z) - value(b.min.z);
    if dx >= dy && dx >= dz {
        0
    } else if dy >= dz {
        1
    } else {
        2
    }
}

fn leaves_under(bvh: &BVH, k: usize, out: &mut Vec<usize>) {
    let node = &bvh.nodes[k];
    match (node.left, node.right) {
        (Some(l), Some(r)) => {
            assert!(l < k && r < k);
            assert!(node.primitive.is_empty());
            leaves_under(bvh, l, out);
            leaves_under(bvh, r, out);
        }
        _ => {
            assert!(node.primitive.len() <= MAX_PRIMITIVES);
            out.extend(node.primitive.iter().copied());
        }
    }
}

fn scattered_corners(n: usize) -> Vec<(f64, f64, f64)> {
    (0..n).map(|i| (((i * 7) % 13) as f64 * 2.0, ((i * 5) % 11) as f64, ((i * 3) % 7) as f64 * 0.5)).collect()
}

#[test]
fn leaves_partition_objects() {
    for n in [0usize, 1, 4, 5, 9, 17, 40] {
        let (boxes, centers) = cubes(&scattered_corners(n));
        let bvh = BVH::new(&boxes, &centers, &longest_axis);
        assert_eq!(bvh.root, bvh.nodes.len() - 1);
        let mut seen = Vec::new();
        leaves_under(&bvh, bvh.root, &mut seen);
        seen.sort();
        assert_eq!(seen, (0..n).collect::<Vec<_>>());
    }
}

#[test]
fn node_boxes_cover_objects() {
    let (boxes, centers) = cubes(&scattered_corners(23));
    let bvh = BVH::new(&boxes, &centers, &longest_axis);
    for k in 0..bvh.nodes.len() {
        let mut under = Vec::new();
        leaves_under(&bvh, k, &mut under);
        let b = bvh.nodes[k].bbox;
        for i in under {
            assert!(b.contains(&boxes[i].min) && b.contains(&boxes[i].max));
        }
    }
    assert!(bvh.bbox() == bvh.nodes[bvh.root].bbox);
}

#[test]
fn empty_scene_is_one_empty_leaf() {
    let bvh = BVH::new(&Vec::new(), &Vec::new(), &longest_axis);
    assert_eq!(bvh.nodes.len(), 1);
    assert!(bvh.nodes[0].primitive.is_empty());
    assert!(bvh.bbox() == BBox::default());
    assert!(bvh.hit(&|_: &BBox| true, &|_: usize| Some(1)).is_none());
}

#[test]
fn split_is_by_count_along_longest_axis() {
    // Eight cubes in a row along x: the root splits them four and four.
    let corners: Vec<_> = (0..8).rev().map(|i| (i as f64 * 3.0, 0.0, 0.0)).collect();
    let (boxes, centers) = cubes(&corners);
    let bvh = BVH::new(&boxes, &centers, &longest_axis);
    let root = &bvh.nodes[bvh.root];
    let mut left = bvh.nodes[root.left.unwrap()].primitive.clone();
    let mut right = bvh.nodes[root.right.unwrap()].primitive.clone();
    left.sort();
    right.sort();
    assert_eq!(left, vec![4, 5, 6, 7]);
    assert_eq!(right, vec![0, 1, 2, 3]);
}

#[test]
fn traversal_matches_scan() {
    let (boxes, centers) = cubes(&scattered_corners(30));
    let bvh = BVH::new(&boxes, &centers, &longest_axis);
    // A query point; an object is "hit" when its box holds the point, at a
    // distance that depends on the object.
    for q in [(0.5, 0.5, 0.5), (4.2, 3.3, 1.1), (10.0, 5.0, 2.0), (100.0, 0.0, 0.0), (12.5, 2.5, 1.25)] {
        let p = Coords::new(key(q.0), key(q.1), key(q.2));
        let prim = |i: usize| if boxes[i].contains(&p) { Some(((i * 37) % 11) as u64) } else { None };
        let by_tree = bvh.hit(&|b: &BBox| b.contains(&p), &prim);
        let by_scan = nearest_by_scan(boxes.len(), &prim);
        assert_eq!(by_tree.map(|h| h.1), by_scan.map(|h| h.1));
        if let Some((i, t)) = by_tree {
            assert_eq!(prim(i), Some(t));
        }
    }
}

#[test]
fn scan_keeps_first_of_equal_distances() {
    let r = nearest_by_scan(5, &|i: usize| if i == 0 { None } else { Some(if i >= 2 { 3 } else { 9 }) });
    assert_eq!(r, Some((2, 3)));
    assert_eq!(nearest_by_scan(0, &|_: usize| Some(1)), None);
    assert_eq!(nearest_by_scan(3, &|_: usize| None), None);
}

#[test]
fn rebuild_replaces_earlier_nodes() {
    let (boxes, centers) = cubes(&scattered_corners(12));
    let mut bvh = BVH::new(&boxes, &centers, &longest_axis);
    let (moved, moved_centers) = cubes(&scattered_corners(3));
    bvh.build(&moved, &moved_centers, &longest_axis);
    assert_eq!(bvh.nodes.len(), 1);
    assert_eq!(bvh.root, 0);
    let mut seen = bvh.nodes[0].primitive.clone();
    seen.sort();
    assert_eq!(seen, vec![0, 1, 2]);
}

#[test]
fn left_centers_precede_right_centers() {
    let (boxes, centers) = cubes(&scattered_corners(19));
    let bvh = BVH::new(&boxes, &centers, &longest_axis);
    let root = &bvh.nodes[bvh.root];
    let (l, r) = (root.left.unwrap(), root.right.unwrap());
    assert!(l < r && r < bvh.root);
    let axis = longest_axis(&root.bbox);
    let (mut left, mut right) = (Vec::new(), Vec::new());
    leaves_under(&bvh, l, &mut left);
    leaves_under(&bvh, r, &mut right);
    assert_eq!(left.len(), 9);
    for &i in &left {
        for &j in &right {
            assert!(centers[i].get(axis) <= centers[j].get(axis));
        }
    }
}
