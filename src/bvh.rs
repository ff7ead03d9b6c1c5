use vstd::prelude::*;

use crate::bbox::{box_within, empty_box, lemma_union_covers, spec_union_all, BBox, Coords};

verus! {

broadcast use vstd::seq_lib::group_to_multiset_ensures;

/// A node with at most this many objects is a leaf.
pub const MAX_PRIMITIVES: usize = 4;

/// A node of the hierarchy: an interior node has both children and no
/// objects; a leaf has neither child and lists its objects by index.
pub struct BVHNode {
    pub left: Option<usize>,
    pub right: Option<usize>,
    pub bbox: BBox,
    pub primitive: Vec<usize>,
}

/// A bounding volume hierarchy over objects known by their index. Nodes are
/// stored in post-order: children always precede their parent.
pub struct BVH {
    pub root: usize,
    pub nodes: Vec<BVHNode>,
}

/// Node `k` is a leaf, or an interior node whose children come before it.
pub open spec fn node_ok(nodes: Seq<BVHNode>, k: int) -> bool {
    match (nodes[k].left, nodes[k].right) {
        (None, None) => nodes[k].primitive.len() <= MAX_PRIMITIVES,
        (Some(l), Some(r)) => l < k && r < k && nodes[k].primitive.len() == 0,
        _ => false,
    }
}

/// The boxes of the objects listed in `idx`, in that order.
pub open spec fn boxes_of(boxes: Seq<BBox>, idx: Seq<usize>) -> Seq<BBox> {
    idx.map_values(|i: usize| boxes[i as int])
}

pub open spec fn nodes_ok(nodes: Seq<BVHNode>) -> bool {
    forall|k: int| 0 <= k < nodes.len() ==> #[trigger] node_ok(nodes, k)
}

/// The objects under node `k`, leaf by leaf from left to right.
pub open spec fn prims_of(nodes: Seq<BVHNode>, k: int) -> Seq<usize>
    decreases k,
{
    if 0 <= k < nodes.len() {
        match (nodes[k].left, nodes[k].right) {
            (Some(l), Some(r)) => if l < k && r < k {
                prims_of(nodes, l as int) + prims_of(nodes, r as int)
            } else {
                Seq::empty()
            },
            _ => nodes[k].primitive@,
        }
    } else {
        Seq::empty()
    }
}

/// Node `k`'s box contains the box of every object under it.
pub open spec fn node_covers(nodes: Seq<BVHNode>, boxes: Seq<BBox>, k: int) -> bool {
    forall|i: usize| #[trigger]
        prims_of(nodes, k).contains(i) ==> i < boxes.len() && box_within(
            boxes[i as int],
            nodes[k].bbox,
        )
}

pub open spec fn nodes_cover(nodes: Seq<BVHNode>, boxes: Seq<BBox>) -> bool {
    forall|k: int| 0 <= k < nodes.len() ==> #[trigger] node_covers(nodes, boxes, k)
}

/// The indices `0 .. n`, in order.
pub open spec fn index_range(n: nat) -> Seq<usize> {
    Seq::new(n, |i: int| i as usize)
}

/// `s` is ordered by the objects' center keys along `axis`.
pub open spec fn sorted_on(centers: Seq<Coords>, axis: int, s: Seq<usize>) -> bool {
    forall|a: int, b: int|
        0 <= a <= b < s.len() ==> centers[s[a] as int].at(axis) <= centers[s[b] as int].at(
            axis,
        )
}

/// Along `axis`, no center of an object of `left` lies beyond the center of
/// an object of `right`.
pub open spec fn split_on(centers: Seq<Coords>, axis: int, left: Seq<usize>, right: Seq<usize>) -> bool {
    forall|i: usize, j: usize| #[trigger] left.contains(i) && #[trigger] right.contains(j)
        ==> centers[i as int].at(axis) <= centers[j as int].at(axis)
}

/// The axis that a split uses when the axis chooser answers `chosen`: that
/// axis where it is one, else z.
pub open spec fn axis_used(chosen: usize) -> int {
    if chosen < 3 {
        chosen as int
    } else {
        2
    }
}

/// Nodes that already stand are not changed by appending more.
pub proof fn lemma_prims_frame(old_nodes: Seq<BVHNode>, new_nodes: Seq<BVHNode>, k: int)
    requires
        0 <= k < old_nodes.len() <= new_nodes.len(),
        forall|j: int| 0 <= j < old_nodes.len() ==> new_nodes[j] == old_nodes[j],
    ensures
        prims_of(new_nodes, k) == prims_of(old_nodes, k),
    decreases k,
{
    match (old_nodes[k].left, old_nodes[k].right) {
        (Some(l), Some(r)) => {
            if l < k && r < k {
                lemma_prims_frame(old_nodes, new_nodes, l as int);
                lemma_prims_frame(old_nodes, new_nodes, r as int);
            }
        },
        _ => {},
    }
}

fn copy_range(v: &Vec<usize>, lo: usize, hi: usize) -> (r: Vec<usize>)
    requires
        lo <= hi <= v.len(),
    ensures
        r@ == v@.subrange(lo as int, hi as int),
{
    let mut r: Vec<usize> = Vec::new();
    let mut i: usize = lo;
    while i < hi
        invariant
            lo <= i <= hi <= v.len(),
            r@ == v@.subrange(lo as int, i as int),
        decreases hi - i,
    {
        r.push(v[i]);
        i += 1;
    }
    r
}

/// Stable insertion sort of object indices by their center key along `axis`.
fn sort_by_center(centers: &Vec<Coords>, indexes: &Vec<usize>, axis: usize) -> (r: Vec<usize>)
    requires
        axis < 3,
        forall|j: int| 0 <= j < indexes.len() ==> indexes[j] < centers.len(),
    ensures
        r@.to_multiset() == indexes@.to_multiset(),
        forall|j: int| 0 <= j < r.len() ==> r[j] < centers.len(),
        sorted_on(centers@, axis as int, r@),
{
    let mut r: Vec<usize> = Vec::new();
    let mut i: usize = 0;
    while i < indexes.len()
        invariant
            axis < 3,
            i <= indexes.len(),
            forall|j: int| 0 <= j < indexes.len() ==> indexes[j] < centers.len(),
            r@.to_multiset() == indexes@.subrange(0, i as int).to_multiset(),
            forall|j: int| 0 <= j < r.len() ==> r[j] < centers.len(),
            sorted_on(centers@, axis as int, r@),
        decreases indexes.len() - i,
    {
        let x = indexes[i];
        let kx = centers[x].get(axis);
        let mut p: usize = 0;
        while p < r.len() && centers[r[p]].get(axis) <= kx
            invariant
                axis < 3,
                p <= r.len(),
                forall|j: int| 0 <= j < r.len() ==> r[j] < centers.len(),
                forall|q: int| 0 <= q < p ==> centers@[r[q] as int].at(axis as int) <= kx,
            decreases r.len() - p,
        {
            p += 1;
        }
        proof {
            assert(p < r.len() ==> centers@[r[p as int] as int].at(axis as int) > kx);
            assert(indexes@.subrange(0, i + 1) == indexes@.subrange(0, i as int).push(x));
        }
        r.insert(p, x);
        i += 1;
    }
    proof {
        assert(indexes@.subrange(0, indexes.len() as int) == indexes@);
    }
    r
}

impl BVH {
    /// The hierarchy is well formed over `boxes`: the root is a node, every
    /// node is a leaf or has earlier children, and every node's box contains
    /// the boxes of the objects under it.
    pub open spec fn wf(&self, boxes: Seq<BBox>) -> bool {
        &&& self.root < self.nodes.len()
        &&& nodes_ok(self.nodes@)
        &&& nodes_cover(self.nodes@, boxes)
    }

    /// The objects under node `k`.
    pub open spec fn prims(&self, k: int) -> Seq<usize> {
        prims_of(self.nodes@, k)
    }

    /// Builds the hierarchy over objects `0 .. boxes.len()`; `boxes[i]` is the
    /// box of object `i` and `centers[i]` the center of that box.
    /// `max_extent` picks the axis along which a box is longest.
    pub fn new(boxes: &Vec<BBox>, centers: &Vec<Coords>, max_extent: &impl Fn(&BBox) -> usize) -> (r: BVH)
        requires
            boxes.len() == centers.len(),
            forall|b: &BBox| #[trigger] max_extent.requires((b,)),
        ensures
            r.wf(boxes@),
            r.prims(r.root as int).to_multiset() == index_range(boxes.len() as nat).to_multiset(),
            r.nodes[r.root as int].bbox == spec_union_all(boxes_of(boxes@, index_range(boxes.len() as nat))),
            boxes.len() == 0 ==> r.nodes.len() == 1 && r.nodes[0].primitive@.len() == 0
                && r.nodes[0].bbox == empty_box(),
    {
        let mut bvh = BVH { root: 0, nodes: Vec::new() };
        bvh.build(boxes, centers, max_extent);
        proof {
            assert(boxes.len() == 0 ==> boxes_of(boxes@, index_range(boxes.len() as nat)) =~= Seq::<
                BBox,
            >::empty());
        }
        bvh
    }

    /// Rebuilds the hierarchy over objects `0 .. boxes.len()`, dropping any
    /// nodes of an earlier build.
    pub fn build(&mut self, boxes: &Vec<BBox>, centers: &Vec<Coords>, max_extent: &impl Fn(&BBox) -> usize)
        requires
            boxes.len() == centers.len(),
            forall|b: &BBox| #[trigger] max_extent.requires((b,)),
        ensures
            final(self).wf(boxes@),
            final(self).prims(final(self).root as int).to_multiset() == index_range(
                boxes.len() as nat,
            ).to_multiset(),
            final(self).nodes[final(self).root as int].bbox == spec_union_all(
                boxes_of(boxes@, index_range(boxes.len() as nat)),
            ),
            boxes.len() == 0 ==> final(self).nodes.len() == 1
                && final(self).nodes[final(self).root as int].primitive@.len() == 0,
    {
        self.nodes = Vec::new();
        let mut indexes: Vec<usize> = Vec::new();
        let mut i: usize = 0;
        while i < boxes.len()
            invariant
                i <= boxes.len(),
                indexes@ == index_range(i as nat),
            decreases boxes.len() - i,
        {
            indexes.push(i);
            i += 1;
            proof {
                assert(indexes@ =~= index_range(i as nat));
            }
        }
        self.root = self.build_from(boxes, centers, max_extent, indexes);
    }

    /// Builds the subtree over `indexes` and returns the position of its root.
    pub fn build_from(
        &mut self,
        boxes: &Vec<BBox>,
        centers: &Vec<Coords>,
        max_extent: &impl Fn(&BBox) -> usize,
        indexes: Vec<usize>,
    ) -> (r: usize)
        requires
            boxes.len() == centers.len(),
            forall|b: &BBox| #[trigger] max_extent.requires((b,)),
            forall|j: int| 0 <= j < indexes.len() ==> indexes[j] < boxes.len(),
            nodes_ok(old(self).nodes@),
            nodes_cover(old(self).nodes@, boxes@),
        ensures
            final(self).root == old(self).root,
            old(self).nodes.len() < final(self).nodes.len(),
            r == final(self).nodes.len() - 1,
            forall|k: int| 0 <= k < old(self).nodes.len() ==> final(self).nodes[k] == old(self).nodes[k],
            nodes_ok(final(self).nodes@),
            nodes_cover(final(self).nodes@, boxes@),
            prims_of(final(self).nodes@, r as int).to_multiset() == indexes@.to_multiset(),
            final(self).nodes[r as int].bbox == spec_union_all(boxes_of(boxes@, indexes@)),
            indexes.len() <= MAX_PRIMITIVES ==> {
                &&& final(self).nodes.len() == old(self).nodes.len() + 1
                &&& final(self).nodes[r as int].left is None
                &&& final(self).nodes[r as int].right is None
                &&& final(self).nodes[r as int].primitive@ == indexes@
            },
            indexes.len() > MAX_PRIMITIVES ==> {
                let node = final(self).nodes[r as int];
                let l = node.left->0;
                let rr = node.right->0;
                &&& node.left is Some && node.right is Some
                &&& old(self).nodes.len() <= l < rr < r
                &&& prims_of(final(self).nodes@, l as int).len() == indexes.len() / 2
                &&& exists|c: usize| #[trigger] max_extent.ensures((&node.bbox,), c) && split_on(
                    centers@,
                    axis_used(c),
                    prims_of(final(self).nodes@, l as int),
                    prims_of(final(self).nodes@, rr as int),
                )
            },
        decreases indexes.len(),
    {
        let mut bbox = BBox::default();
        let mut i: usize = 0;
        while i < indexes.len()
            invariant
                i <= indexes.len(),
                forall|j: int| 0 <= j < indexes.len() ==> indexes[j] < boxes.len(),
                forall|j: int| 0 <= j < i ==> box_within(boxes@[indexes@[j] as int], bbox),
                bbox == spec_union_all(boxes_of(boxes@, indexes@.subrange(0, i as int))),
            decreases indexes.len() - i,
        {
            proof {
                assert(boxes_of(boxes@, indexes@.subrange(0, i + 1)).drop_last() =~= boxes_of(
                    boxes@,
                    indexes@.subrange(0, i as int),
                ));
            }
            let next = bbox.union(&boxes[indexes[i]]);
            proof {
                lemma_union_covers(bbox, boxes@[indexes@[i as int] as int]);
            }
            bbox = next;
            i += 1;
        }
        proof {
            assert(indexes@.subrange(0, indexes.len() as int) =~= indexes@);
        }
        let ghost start = self.nodes@;
        if indexes.len() <= MAX_PRIMITIVES {
            let node = BVHNode { left: None, right: None, bbox, primitive: indexes };
            self.nodes.push(node);
            proof {
                let k = self.nodes.len() - 1;
                assert forall|j: int| 0 <= j < self.nodes.len() implies #[trigger] node_ok(
                    self.nodes@,
                    j,
                ) by {
                    if j < k {
                        assert(node_ok(start, j));
                    }
                };
                assert forall|j: int| 0 <= j < self.nodes.len() implies #[trigger] node_covers(
                    self.nodes@,
                    boxes@,
                    j,
                ) by {
                    if j < k {
                        lemma_prims_frame(start, self.nodes@, j);
                        assert(node_covers(start, boxes@, j));
                    } else {
                        assert forall|x: usize| #[trigger]
                            prims_of(self.nodes@, j).contains(x) implies x < boxes.len()
                            && box_within(boxes@[x as int], self.nodes@[j].bbox) by {
                            let q = choose|q: int| 0 <= q < indexes@.len() && indexes@[q] == x;
                        };
                    }
                };
            }
            return self.nodes.len() - 1;
        }
        let chosen = max_extent(&bbox);
        let axis: usize = if chosen < 3 {
            chosen
        } else {
            2
        };
        let sorted = sort_by_center(centers, &indexes, axis);
        proof {
            assert(sorted@.len() == sorted@.to_multiset().len());
            assert(indexes@.len() == indexes@.to_multiset().len());
        }
        let mid = sorted.len() / 2;
        let left_indexes = copy_range(&sorted, 0, mid);
        let right_indexes = copy_range(&sorted, mid, sorted.len());
        let left = self.build_from(boxes, centers, max_extent, left_indexes);
        let ghost after_left = self.nodes@;
        let right = self.build_from(boxes, centers, max_extent, right_indexes);
        let ghost after_right = self.nodes@;
        let node = BVHNode { left: Some(left), right: Some(right), bbox, primitive: Vec::new() };
        self.nodes.push(node);
        proof {
            let k = self.nodes.len() - 1;
            assert(sorted@ =~= sorted@.subrange(0, mid as int) + sorted@.subrange(
                mid as int,
                sorted.len() as int,
            ));
            lemma_prims_frame(after_left, after_right, left as int);
            lemma_prims_frame(after_right, self.nodes@, left as int);
            assert(sorted@.subrange(0, mid as int).len() == indexes.len() / 2);
            let pl = prims_of(self.nodes@, left as int);
            let pr = prims_of(self.nodes@, right as int);
            assert(pl == prims_of(after_left, left as int));
            lemma_prims_frame(after_right, self.nodes@, right as int);
            assert(pr == prims_of(after_right, right as int));
            assert(pl.to_multiset() == left_indexes@.to_multiset());
            assert(pr.to_multiset() == right_indexes@.to_multiset());
            assert forall|x: usize, y: usize| #[trigger] pl.contains(x) && #[trigger] pr.contains(y)
                implies centers@[x as int].at(axis as int) <= centers@[y as int].at(axis as int) by {
                assert(pl.to_multiset().count(x) > 0);
                assert(left_indexes@.to_multiset().count(x) > 0);
                assert(pr.to_multiset().count(y) > 0);
                assert(right_indexes@.to_multiset().count(y) > 0);
                let p = choose|p: int| 0 <= p < left_indexes@.len() && left_indexes@[p] == x;
                let q = choose|q: int| 0 <= q < right_indexes@.len() && right_indexes@[q] == y;
                assert(sorted@[p] == x);
                assert(sorted@[mid + q] == y);
            };
            assert(max_extent.ensures((&bbox,), chosen));
            assert(axis_used(chosen) == axis);
            assert(split_on(centers@, axis_used(chosen), pl, pr));
            assert(self.nodes[k as int].bbox == bbox);
            assert(self.nodes[k as int].left->0 == left);
            assert(self.nodes[k as int].right->0 == right);
            assert(exists|c: usize| #[trigger] max_extent.ensures((&self.nodes[k as int].bbox,), c)
                && split_on(centers@, axis_used(c), pl, pr));
            lemma_prims_frame(after_right, self.nodes@, right as int);
            assert(prims_of(self.nodes@, k) == prims_of(self.nodes@, left as int) + prims_of(
                self.nodes@,
                right as int,
            ));
            vstd::seq_lib::lemma_multiset_commutative(
                prims_of(self.nodes@, left as int),
                prims_of(self.nodes@, right as int),
            );
            vstd::seq_lib::lemma_multiset_commutative(
                sorted@.subrange(0, mid as int),
                sorted@.subrange(mid as int, sorted.len() as int),
            );
            assert(prims_of(self.nodes@, k).to_multiset() == indexes@.to_multiset());
            assert forall|j: int| 0 <= j < self.nodes.len() implies #[trigger] node_ok(
                self.nodes@,
                j,
            ) by {
                if j < k {
                    assert(node_ok(after_right, j));
                }
            };
            assert forall|j: int| 0 <= j < self.nodes.len() implies #[trigger] node_covers(
                self.nodes@,
                boxes@,
                j,
            ) by {
                if j < k {
                    lemma_prims_frame(after_right, self.nodes@, j);
                    assert(node_covers(after_right, boxes@, j));
                } else {
                    assert forall|x: usize| #[trigger]
                        prims_of(self.nodes@, j).contains(x) implies x < boxes.len()
                        && box_within(boxes@[x as int], self.nodes@[j].bbox) by {
                        assert(prims_of(self.nodes@, j).to_multiset().count(x) > 0);
                        assert(indexes@.to_multiset().count(x) > 0);
                        assert(indexes@.contains(x));
                    };
                }
            };
        }
        self.nodes.len() - 1
    }
}


/// The nearer of two optional hit distances.
pub open spec fn closer(a: Option<u64>, b: Option<u64>) -> Option<u64> {
    match (a, b) {
        (Some(x), Some(y)) => if x <= y {
            Some(x)
        } else {
            Some(y)
        },
        (Some(x), None) => Some(x),
        (None, Some(y)) => Some(y),
        (None, None) => None,
    }
}

/// The distance of a hit found on object `index` at distance `t`.
pub open spec fn dist(r: Option<(usize, u64)>) -> Option<u64> {
    match r {
        Some((_, t)) => Some(t),
        None => None,
    }
}

/// The nearest hit distance over the objects of `s`, testing them in order.
pub open spec fn seq_nearest(s: Seq<usize>, hits: spec_fn(usize) -> Option<u64>) -> Option<u64>
    decreases s.len(),
{
    if s.len() == 0 {
        None
    } else {
        closer(seq_nearest(s.drop_last(), hits), hits(s.last()))
    }
}

/// The nearest hit distance that a traversal from node `k` finds when the box
/// test answers `vis` and the object test answers `hits`: a node whose box is
/// missed contributes nothing.
pub open spec fn node_nearest(
    nodes: Seq<BVHNode>,
    k: int,
    vis: spec_fn(BBox) -> bool,
    hits: spec_fn(usize) -> Option<u64>,
) -> Option<u64>
    decreases k,
{
    if 0 <= k < nodes.len() && vis(nodes[k].bbox) {
        match (nodes[k].left, nodes[k].right) {
            (Some(l), Some(r)) => if l < k && r < k {
                closer(node_nearest(nodes, l as int, vis, hits), node_nearest(nodes, r as int, vis, hits))
            } else {
                None
            },
            _ => seq_nearest(nodes[k].primitive@, hits),
        }
    } else {
        None
    }
}

/// `r` is the smallest hit distance among the objects of `s`, or none where
/// none of them is hit.
pub open spec fn is_nearest(r: Option<u64>, hits: spec_fn(usize) -> Option<u64>, s: Seq<usize>) -> bool {
    match r {
        None => forall|i: usize| #[trigger] s.contains(i) ==> hits(i) is None,
        Some(t) => {
            &&& exists|i: usize| #[trigger] s.contains(i) && hits(i) == Some(t)
            &&& forall|i: usize| #[trigger] s.contains(i) ==> (hits(i) matches Some(u) ==> t <= u)
        },
    }
}

/// The box test answers `vis` on every box.
pub open spec fn box_test_is<F: Fn(&BBox) -> bool>(box_hit: F, vis: spec_fn(BBox) -> bool) -> bool {
    forall|b: BBox, o: bool| #[trigger] box_hit.ensures((&b,), o) ==> o == vis(b)
}

/// The object test answers `hits` on every object.
pub open spec fn hit_test_is<G: Fn(usize) -> Option<u64>>(
    prim_hit: G,
    hits: spec_fn(usize) -> Option<u64>,
) -> bool {
    forall|i: usize, o: Option<u64>| #[trigger] prim_hit.ensures((i,), o) ==> o == hits(i)
}

proof fn lemma_seq_nearest_is_nearest(s: Seq<usize>, hits: spec_fn(usize) -> Option<u64>)
    ensures
        is_nearest(seq_nearest(s, hits), hits, s),
    decreases s.len(),
{
    if s.len() > 0 {
        let p = s.drop_last();
        lemma_seq_nearest_is_nearest(p, hits);
        assert(s =~= p.push(s.last()));
        assert forall|i: usize| #[trigger] s.contains(i) implies p.contains(i) || i == s.last() by {
            let j = choose|j: int| 0 <= j < s.len() && s[j] == i;
            if j < s.len() - 1 {
                assert(p[j] == i);
            }
        };
        assert forall|i: usize| #[trigger] p.contains(i) implies s.contains(i) by {
            let j = choose|j: int| 0 <= j < p.len() && p[j] == i;
            assert(s[j] == i);
        };
        assert(s.contains(s.last())) by {
            assert(s[s.len() - 1] == s.last());
        };
    }
}

proof fn lemma_nearest_unique(a: Option<u64>, b: Option<u64>, hits: spec_fn(usize) -> Option<u64>, s: Seq<usize>)
    requires
        is_nearest(a, hits, s),
        is_nearest(b, hits, s),
    ensures
        a == b,
{
    match (a, b) {
        (Some(x), Some(y)) => {
            let i = choose|i: usize| #[trigger] s.contains(i) && hits(i) == Some(x);
            let j = choose|j: usize| #[trigger] s.contains(j) && hits(j) == Some(y);
        },
        (Some(x), None) => {
            let i = choose|i: usize| #[trigger] s.contains(i) && hits(i) == Some(x);
        },
        (None, Some(y)) => {
            let j = choose|j: usize| #[trigger] s.contains(j) && hits(j) == Some(y);
        },
        (None, None) => {},
    }
}

proof fn lemma_nearest_same_members(r: Option<u64>, hits: spec_fn(usize) -> Option<u64>, s1: Seq<usize>, s2: Seq<usize>)
    requires
        is_nearest(r, hits, s1),
        forall|i: usize| #[trigger] s1.contains(i) <==> s2.contains(i),
    ensures
        is_nearest(r, hits, s2),
{
    match r {
        Some(t) => {
            let i = choose|i: usize| #[trigger] s1.contains(i) && hits(i) == Some(t);
            assert(s2.contains(i));
            assert forall|j: usize| #[trigger] s2.contains(j) implies (hits(j) matches Some(u) ==> t
                <= u) by {
                assert(s1.contains(j));
            };
        },
        None => {
            assert forall|j: usize| #[trigger] s2.contains(j) implies hits(j) is None by {
                assert(s1.contains(j));
            };
        },
    }
}

proof fn lemma_closer_is_nearest(
    a: Option<u64>,
    b: Option<u64>,
    hits: spec_fn(usize) -> Option<u64>,
    pl: Seq<usize>,
    pr: Seq<usize>,
    s: Seq<usize>,
)
    requires
        is_nearest(a, hits, pl),
        is_nearest(b, hits, pr),
        forall|i: usize| #[trigger] s.contains(i) <==> pl.contains(i) || pr.contains(i),
    ensures
        is_nearest(closer(a, b), hits, s),
{
    match closer(a, b) {
        Some(t) => {
            if a == Some(t) {
                let i = choose|i: usize| #[trigger] pl.contains(i) && hits(i) == Some(t);
                assert(s.contains(i));
            } else {
                let i = choose|i: usize| #[trigger] pr.contains(i) && hits(i) == Some(t);
                assert(s.contains(i));
            }
            assert forall|j: usize| #[trigger] s.contains(j) implies (hits(j) matches Some(u) ==> t
                <= u) by {
                if pl.contains(j) {
                } else {
                    assert(pr.contains(j));
                }
            };
        },
        None => {
            assert forall|j: usize| #[trigger] s.contains(j) implies hits(j) is None by {
                if pl.contains(j) {
                } else {
                    assert(pr.contains(j));
                }
            };
        },
    }
}

proof fn lemma_node_nearest_is_nearest(
    nodes: Seq<BVHNode>,
    k: int,
    vis: spec_fn(BBox) -> bool,
    hits: spec_fn(usize) -> Option<u64>,
)
    requires
        0 <= k < nodes.len(),
        nodes_ok(nodes),
        forall|j: int, i: usize|
            0 <= j < nodes.len() && !vis(nodes[j].bbox) && #[trigger] prims_of(nodes, j).contains(i)
                ==> hits(i) is None,
    ensures
        is_nearest(node_nearest(nodes, k, vis, hits), hits, prims_of(nodes, k)),
    decreases k,
{
    assert(node_ok(nodes, k));
    if !vis(nodes[k].bbox) {
        assert forall|i: usize| #[trigger] prims_of(nodes, k).contains(i) implies hits(i) is None by {};
    } else {
        match (nodes[k].left, nodes[k].right) {
            (Some(l), Some(r)) => {
                lemma_node_nearest_is_nearest(nodes, l as int, vis, hits);
                lemma_node_nearest_is_nearest(nodes, r as int, vis, hits);
                let pl = prims_of(nodes, l as int);
                let pr = prims_of(nodes, r as int);
                let s = prims_of(nodes, k);
                assert(s == pl + pr);
                assert forall|i: usize| #[trigger] s.contains(i) implies pl.contains(i) || pr.contains(i) by {
                    let j = choose|j: int| 0 <= j < s.len() && s[j] == i;
                    if j < pl.len() {
                        assert(pl[j] == i);
                    } else {
                        assert(pr[j - pl.len()] == i);
                    }
                };
                assert forall|i: usize| pl.contains(i) || pr.contains(i) implies #[trigger] s.contains(i) by {
                    if pl.contains(i) {
                        let j = choose|j: int| 0 <= j < pl.len() && pl[j] == i;
                        assert(s[j] == i);
                    } else {
                        let j = choose|j: int| 0 <= j < pr.len() && pr[j] == i;
                        assert(s[j + pl.len()] == i);
                    }
                };
                let a = node_nearest(nodes, l as int, vis, hits);
                let b = node_nearest(nodes, r as int, vis, hits);
                assert(node_nearest(nodes, k, vis, hits) == closer(a, b));
                lemma_closer_is_nearest(a, b, hits, pl, pr, s);
            },
            _ => {
                lemma_seq_nearest_is_nearest(nodes[k].primitive@, hits);
                assert(prims_of(nodes, k) == nodes[k].primitive@);
                assert(node_nearest(nodes, k, vis, hits) == seq_nearest(nodes[k].primitive@, hits));
            },
        }
    }
}

/// A traversal finds the same nearest hit distance as testing every object
/// in turn, provided that a box test misses only boxes whose objects are all
/// missed too: the hierarchy speeds the search up and never changes its answer.
pub proof fn lemma_bvh_matches_scan(
    bvh: &BVH,
    boxes: Seq<BBox>,
    vis: spec_fn(BBox) -> bool,
    hits: spec_fn(usize) -> Option<u64>,
)
    requires
        bvh.wf(boxes),
        bvh.prims(bvh.root as int).to_multiset() == index_range(boxes.len()).to_multiset(),
        forall|j: int, i: usize|
            0 <= j < bvh.nodes.len() && !vis(bvh.nodes[j].bbox) && #[trigger] bvh.prims(j).contains(i)
                ==> hits(i) is None,
    ensures
        node_nearest(bvh.nodes@, bvh.root as int, vis, hits) == seq_nearest(
            index_range(boxes.len()),
            hits,
        ),
{
    let s = bvh.prims(bvh.root as int);
    let all = index_range(boxes.len());
    assert forall|j: int, i: usize|
        0 <= j < bvh.nodes.len() && !vis(bvh.nodes[j].bbox) && #[trigger] prims_of(bvh.nodes@, j).contains(i)
            implies hits(i) is None by {
        assert(bvh.prims(j).contains(i));
    };
    lemma_node_nearest_is_nearest(bvh.nodes@, bvh.root as int, vis, hits);
    lemma_seq_nearest_is_nearest(all, hits);
    assert forall|i: usize| #[trigger] s.contains(i) <==> all.contains(i) by {
        assert(s.to_multiset().count(i) == all.to_multiset().count(i));
    };
    lemma_nearest_same_members(node_nearest(bvh.nodes@, bvh.root as int, vis, hits), hits, s, all);
    lemma_nearest_unique(
        node_nearest(bvh.nodes@, bvh.root as int, vis, hits),
        seq_nearest(all, hits),
        hits,
        all,
    );
}

/// After a build, the leaves hold every object exactly once: the objects
/// under the root are `0 .. n` with none repeated and none missing.
pub proof fn lemma_leaves_partition(bvh: &BVH, n: nat)
    requires
        n <= usize::MAX,
        bvh.prims(bvh.root as int).to_multiset() == index_range(n).to_multiset(),
    ensures
        bvh.prims(bvh.root as int).no_duplicates(),
        bvh.prims(bvh.root as int).len() == n,
        forall|i: usize| #[trigger] bvh.prims(bvh.root as int).contains(i) <==> i < n,
{
    let s = bvh.prims(bvh.root as int);
    let all = index_range(n);
    assert forall|a: int, b: int| 0 <= a < all.len() && 0 <= b < all.len() && a != b implies all[a]
        != all[b] by {};
    assert(all.no_duplicates());
    all.lemma_multiset_has_no_duplicates();
    s.lemma_multiset_has_no_duplicates_conv();
    assert(s.len() == s.to_multiset().len());
    assert(all.len() == all.to_multiset().len());
    assert forall|i: usize| #[trigger] s.contains(i) <==> i < n by {
        assert(s.to_multiset().count(i) == all.to_multiset().count(i));
        if i < n {
            assert(all[i as int] == i);
        }
    };
}

/// No object before `i` is hit at distance `t` or nearer: among equally near
/// objects, `i` is the first.
pub open spec fn earlier_are_farther(hits: spec_fn(usize) -> Option<u64>, i: usize, t: u64) -> bool {
    forall|j: usize| j < i ==> (#[trigger] hits(j) matches Some(u) ==> t < u)
}

/// Of the objects before `end`, those before `b` are hit farther than `t` or
/// not at all, and the others no nearer than `t`.
pub open spec fn scanned_not_nearer(hits: spec_fn(usize) -> Option<u64>, b: usize, end: usize, t: u64) -> bool {
    forall|j: usize| j < end ==> (#[trigger] hits(j) matches Some(u) ==> (t <= u && (j < b ==> t < u)))
}

/// None of the objects before `end` is hit.
pub open spec fn scanned_missed(hits: spec_fn(usize) -> Option<u64>, end: usize) -> bool {
    forall|j: usize| j < end ==> #[trigger] hits(j) is None
}

/// The nearest hit among objects `0 .. n`, testing each in turn; the result
/// is the object's index and its hit distance key.
pub fn nearest_by_scan(n: usize, prim_hit: &impl Fn(usize) -> Option<u64>) -> (r: Option<(usize, u64)>)
    requires
        forall|i: usize| #[trigger] prim_hit.requires((i,)),
    ensures
        forall|hits: spec_fn(usize) -> Option<u64>| #[trigger] hit_test_is(*prim_hit, hits)
            ==> dist(r) == seq_nearest(index_range(n as nat), hits),
        r matches Some((i, t)) ==> i < n && prim_hit.ensures((i,), Some(t)),
        r matches Some((i, t)) ==> forall|hits: spec_fn(usize) -> Option<u64>| #[trigger]
            hit_test_is(*prim_hit, hits) ==> earlier_are_farther(hits, i, t),
{
    let mut best: Option<(usize, u64)> = None;
    let mut i: usize = 0;
    while i < n
        invariant
            i <= n,
            forall|i: usize| #[trigger] prim_hit.requires((i,)),
            forall|hits: spec_fn(usize) -> Option<u64>| #[trigger] hit_test_is(*prim_hit, hits)
                ==> dist(best) == seq_nearest(index_range(i as nat), hits),
            best matches Some((j, t)) ==> j < i && prim_hit.ensures((j,), Some(t)),
            best matches Some((b, t)) ==> forall|hits: spec_fn(usize) -> Option<u64>| #[trigger]
                hit_test_is(*prim_hit, hits) ==> scanned_not_nearer(hits, b, i, t),
            best is None ==> forall|hits: spec_fn(usize) -> Option<u64>| #[trigger]
                hit_test_is(*prim_hit, hits) ==> scanned_missed(hits, i),
        decreases n - i,
    {
        let h = prim_hit(i);
        let ghost before = best;
        if let Some(t) = h {
            match best {
                Some((_, b)) => {
                    if t < b {
                        best = Some((i, t));
                    }
                },
                None => {
                    best = Some((i, t));
                },
            }
        }
        proof {
            assert forall|hits: spec_fn(usize) -> Option<u64>| #[trigger] hit_test_is(*prim_hit, hits)
                implies dist(best) == seq_nearest(index_range((i + 1) as nat), hits) by {
                assert(index_range((i + 1) as nat).drop_last() =~= index_range(i as nat));
                assert(h == hits(i));
            };
            if let Some((b, t)) = best {
                assert forall|hits: spec_fn(usize) -> Option<u64>| #[trigger] hit_test_is(*prim_hit, hits)
                    implies scanned_not_nearer(hits, b, (i + 1) as usize, t) by {
                    assert(h == hits(i));
                    match before {
                        Some((b0, t0)) => {
                            assert(scanned_not_nearer(hits, b0, i, t0));
                        },
                        None => {
                            assert(scanned_missed(hits, i));
                        },
                    }
                };
            } else {
                assert forall|hits: spec_fn(usize) -> Option<u64>| #[trigger] hit_test_is(*prim_hit, hits)
                    implies scanned_missed(hits, (i + 1) as usize) by {
                    assert(h == hits(i));
                    assert(scanned_missed(hits, i));
                };
            }
        }
        i += 1;
    }
    best
}

impl BVH {
    /// The nearest hit under node `k`: boxes that `box_hit` misses are
    /// skipped, and `prim_hit` gives an object's hit distance key, if any.
    fn hit_node(
        &self,
        k: usize,
        box_hit: &impl Fn(&BBox) -> bool,
        prim_hit: &impl Fn(usize) -> Option<u64>,
    ) -> (r: Option<(usize, u64)>)
        requires
            forall|b: &BBox| #[trigger] box_hit.requires((b,)),
            forall|i: usize| #[trigger] prim_hit.requires((i,)),
        ensures
            forall|vis: spec_fn(BBox) -> bool, hits: spec_fn(usize) -> Option<u64>|
                box_test_is(*box_hit, vis) && hit_test_is(*prim_hit, hits) ==> dist(r)
                    == #[trigger] node_nearest(self.nodes@, k as int, vis, hits),
            r matches Some((i, t)) ==> self.prims(k as int).contains(i) && prim_hit.ensures(
                (i,),
                Some(t),
            ),
        decreases k,
    {
        if k >= self.nodes.len() {
            return None;
        }
        let node = &self.nodes[k];
        let seen = box_hit(&node.bbox);
        if !seen {
            return None;
        }
        if node.left.is_none() || node.right.is_none() {
            let mut best: Option<(usize, u64)> = None;
            let mut j: usize = 0;
            while j < node.primitive.len()
                invariant
                    j <= node.primitive.len(),
                    node == self.nodes@[k as int],
                    k < self.nodes.len(),
                    !(node.left is Some && node.right is Some),
                    forall|i: usize| #[trigger] prim_hit.requires((i,)),
                    forall|hits: spec_fn(usize) -> Option<u64>| #[trigger] hit_test_is(*prim_hit, hits)
                        ==> dist(best) == seq_nearest(node.primitive@.subrange(0, j as int), hits),
                    best matches Some((i, t)) ==> node.primitive@.subrange(0, j as int).contains(i)
                        && prim_hit.ensures((i,), Some(t)),
                decreases node.primitive.len() - j,
            {
                let i = node.primitive[j];
                let h = prim_hit(i);
                if let Some(t) = h {
                    match best {
                        Some((_, b)) => {
                            if t < b {
                                best = Some((i, t));
                            }
                        },
                        None => {
                            best = Some((i, t));
                        },
                    }
                }
                proof {
                    let p = node.primitive@;
                    assert(p.subrange(0, j + 1).drop_last() =~= p.subrange(0, j as int));
                    assert(p.subrange(0, j + 1)[j as int] == i);
                    assert forall|x: usize| #[trigger] p.subrange(0, j as int).contains(x)
                        implies p.subrange(0, j + 1).contains(x) by {
                        let q = choose|q: int| 0 <= q < j && p.subrange(0, j as int)[q] == x;
                        assert(p.subrange(0, j + 1)[q] == x);
                    };
                    assert forall|hits: spec_fn(usize) -> Option<u64>| #[trigger] hit_test_is(*prim_hit, hits)
                        implies dist(best) == seq_nearest(p.subrange(0, j + 1), hits) by {
                        assert(h == hits(i));
                    };
                }
                j += 1;
            }
            proof {
                assert(node.primitive@.subrange(0, node.primitive.len() as int) =~= node.primitive@);
            }
            return best;
        }
        let l = node.left.unwrap();
        let r = node.right.unwrap();
        if l >= k || r >= k {
            return None;
        }
        let left_hit = self.hit_node(l, box_hit, prim_hit);
        let right_hit = self.hit_node(r, box_hit, prim_hit);
        proof {
            let pl = self.prims(l as int);
            let pr = self.prims(r as int);
            assert(self.prims(k as int) == pl + pr);
            assert forall|x: usize| pl.contains(x) implies #[trigger] (pl + pr).contains(x) by {
                let q = choose|q: int| 0 <= q < pl.len() && pl[q] == x;
                assert((pl + pr)[q] == x);
            };
            assert forall|x: usize| pr.contains(x) implies #[trigger] (pl + pr).contains(x) by {
                let q = choose|q: int| 0 <= q < pr.len() && pr[q] == x;
                assert((pl + pr)[q + pl.len()] == x);
            };
        }
        proof {
            assert forall|vis: spec_fn(BBox) -> bool, hits: spec_fn(usize) -> Option<u64>|
                box_test_is(*box_hit, vis) && hit_test_is(*prim_hit, hits) implies node_nearest(
                self.nodes@,
                k as int,
                vis,
                hits,
            ) == closer(dist(left_hit), dist(right_hit)) by {
                assert(box_hit.ensures((&node.bbox,), seen));
                assert(vis(node.bbox));
                assert(dist(left_hit) == node_nearest(self.nodes@, l as int, vis, hits));
                assert(dist(right_hit) == node_nearest(self.nodes@, r as int, vis, hits));
            };
        }
        match (left_hit, right_hit) {
            (Some(a), Some(b)) => {
                if a.1 < b.1 {
                    Some(a)
                } else {
                    Some(b)
                }
            },
            (Some(a), None) => Some(a),
            (None, Some(b)) => Some(b),
            (None, None) => None,
        }
    }

    /// The nearest hit in the whole hierarchy: the object's index and its hit
    /// distance key.
    pub fn hit(
        &self,
        box_hit: &impl Fn(&BBox) -> bool,
        prim_hit: &impl Fn(usize) -> Option<u64>,
    ) -> (r: Option<(usize, u64)>)
        requires
            forall|b: &BBox| #[trigger] box_hit.requires((b,)),
            forall|i: usize| #[trigger] prim_hit.requires((i,)),
        ensures
            forall|vis: spec_fn(BBox) -> bool, hits: spec_fn(usize) -> Option<u64>|
                box_test_is(*box_hit, vis) && hit_test_is(*prim_hit, hits) ==> dist(r)
                    == #[trigger] node_nearest(self.nodes@, self.root as int, vis, hits),
            r matches Some((i, t)) ==> self.prims(self.root as int).contains(i)
                && prim_hit.ensures((i,), Some(t)),
    {
        self.hit_node(self.root, box_hit, prim_hit)
    }

    /// The box of the whole hierarchy.
    pub fn bbox(&self) -> (r: BBox)
        requires
            self.root < self.nodes.len(),
        ensures
            r == self.nodes[self.root as int].bbox,
    {
        self.nodes[self.root].bbox
    }
}

} // verus!
