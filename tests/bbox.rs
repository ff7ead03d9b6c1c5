use rayrs::bbox::{bits_of_key, max_extent, order_key, union_all, BBox, Coords, KEY_NEG_INF, KEY_POS_INF};

fn key(v: f64) -> u64 {
    order_key(v.to_bits())
}

fn point(x: f64, y: f64, z: f64) -> Coords {
    Coords::new(key(x), key(y), key(z))
}

fn boxed(lo: (f64, f64, f64), hi: (f64, f64, f64)) -> BBox {
    BBox::new(point(lo.0, lo.1, lo.2), point(hi.0, hi.1, hi.2))
}

#[test]
fn keys_follow_numeric_order() {
    let values = [f64::NEG_INFINITY, -1e300, -2.5, -1.0, -1e-300, 0.0, 1e-300, 1.0, 2.5, 1e300, f64::INFINITY];
    for w in values.windows(2) {
        assert!(key(w[0]) < key(w[1]), "{} < {}", w[0], w[1]);
    }
    assert_eq!(key(f64::INFINITY), KEY_POS_INF);
    assert_eq!(key(f64::NEG_INFINITY), KEY_NEG_INF);
}

#[test]
fn keys_round_trip() {
    for v in [0.0, -0.0, 1.5, -1.5, 123456.789, -1e-10, f64::MAX, f64::MIN] {
        let back = f64::from_bits(bits_of_key(key(v)));
        assert_eq!(back.to_bits(), v.to_bits());
    }
    assert_eq!(order_key(0), 0x8000_0000_0000_0000);
    assert_eq!(order_key(0x8000_0000_0000_0000), 0x7fff_ffff_ffff_ffff);
}

#[test]
fn union_contains_both_boxes() {
    let a = boxed((0.0, 0.0, 0.0), (1.0, 1.0, 1.0));
    let b = boxed((2.0, -1.0, 0.5), (3.0, 0.5, 4.0));
    let u = a.union(&b);
    assert!(u == boxed((0.0, -1.0, 0.0), (3.0, 1.0, 4.0)));
    for p in [point(0.5, 0.5, 0.5), point(2.5, 0.0, 3.0), point(0.0, 0.0, 0.0), point(3.0, 0.5, 4.0)] {
        assert!(u.contains(&p));
    }
    assert!(u.contains(&point(1.5, 0.0, 2.0)));
    assert!(!a.contains(&point(1.5, 0.0, 2.0)));
    assert!(!u.contains(&point(3.5, 0.0, 2.0)));
}

#[test]
fn union_is_commutative_and_associative() {
    let a = boxed((0.0, 0.0, 0.0), (1.0, 1.0, 1.0));
    let b = boxed((-2.0, 0.5, 0.5), (0.5, 3.0, 0.75));
    let c = boxed((5.0, -5.0, 1.0), (6.0, -4.0, 2.0));
    assert!(a.union(&b) == b.union(&a));
    assert!(a.union(&b).union(&c) == a.union(&b.union(&c)));
}

#[test]
fn empty_box_is_union_identity() {
    let a = boxed((-1.0, 2.0, -3.0), (4.0, 5.0, 6.0));
    let e = BBox::default();
    assert!(e.union(&a) == a);
    assert!(a.union(&e) == a);
    assert!(!e.contains(&point(0.0, 0.0, 0.0)));
    assert!(union_all(&Vec::new()) == e);
}

#[test]
fn union_all_covers_every_box() {
    let boxes = vec![
        boxed((0.0, 0.0, 0.0), (1.0, 1.0, 1.0)),
        boxed((-3.0, 0.0, 0.0), (-2.0, 1.0, 1.0)),
        boxed((0.0, 7.0, 0.0), (1.0, 8.0, 1.0)),
    ];
    assert!(union_all(&boxes) == boxed((-3.0, 0.0, 0.0), (1.0, 8.0, 1.0)));
}

#[test]
fn intersect_includes_touching_boxes() {
    let a = boxed((0.0, 0.0, 0.0), (1.0, 1.0, 1.0));
    let touching = boxed((1.0, 0.0, 0.0), (2.0, 1.0, 1.0));
    let apart = boxed((1.5, 0.0, 0.0), (2.0, 1.0, 1.0));
    let inside = boxed((0.25, 0.25, 0.25), (0.5, 0.5, 0.5));
    assert!(a.intersect(&touching));
    assert!(touching.intersect(&a));
    assert!(!a.intersect(&apart));
    assert!(a.intersect(&inside));
    assert!(!a.intersect(&BBox::default()));
}

#[test]
fn coords_get_picks_axis() {
    let p = Coords::new(1, 2, 3);
    assert_eq!((p.get(0), p.get(1), p.get(2)), (1, 2, 3));
}

#[test]
fn max_extent_picks_longest_axis() {
    assert_eq!(max_extent(&point(3.0, 1.0, 2.0)), 0);
    assert_eq!(max_extent(&point(1.0, 3.0, 2.0)), 1);
    assert_eq!(max_extent(&point(1.0, 2.0, 3.0)), 2);
    // Equal lengths: x first, then y.
    assert_eq!(max_extent(&point(2.0, 2.0, 1.0)), 0);
    assert_eq!(max_extent(&point(2.0, 1.0, 2.0)), 0);
    assert_eq!(max_extent(&point(1.0, 2.0, 2.0)), 1);
    assert_eq!(max_extent(&point(1.0, 1.0, 1.0)), 0);
}
