use vstd::prelude::*;

verus! {

/// The order key of positive infinity.
pub const KEY_POS_INF: u64 = 0xfff0_0000_0000_0000;

/// The order key of negative infinity.
pub const KEY_NEG_INF: u64 = 0x000f_ffff_ffff_ffff;

/// The sign bit of a double, and the bit that marks a non-negative key.
pub const SIGN_BIT: u64 = 0x8000_0000_0000_0000;

/// The order key of an IEEE-754 double given by its bit pattern: the sign bit
/// is set on non-negative values and every bit is flipped on negative ones, so
/// that unsigned order on keys is numeric order on the values.
pub open spec fn spec_order_key(bits: u64) -> u64 {
    if bits & SIGN_BIT == 0 {
        bits | SIGN_BIT
    } else {
        !bits
    }
}

/// The bit pattern that an order key stands for.
pub open spec fn spec_bits_of_key(key: u64) -> u64 {
    if key & SIGN_BIT == 0 {
        !key
    } else {
        key & !SIGN_BIT
    }
}

/// A key stands for a number (not a NaN) exactly when it lies between the
/// keys of the two infinities.
pub open spec fn is_number_key(k: u64) -> bool {
    KEY_NEG_INF <= k <= KEY_POS_INF
}

pub fn order_key(bits: u64) -> (r: u64)
    ensures
        r == spec_order_key(bits),
{
    if bits & SIGN_BIT == 0 {
        bits | SIGN_BIT
    } else {
        !bits
    }
}

pub fn bits_of_key(key: u64) -> (r: u64)
    ensures
        r == spec_bits_of_key(key),
{
    if key & SIGN_BIT == 0 {
        !key
    } else {
        key & !SIGN_BIT
    }
}

/// Turning a bit pattern into its key and back gives the bit pattern again.
pub proof fn lemma_key_round_trip(bits: u64)
    ensures
        spec_bits_of_key(spec_order_key(bits)) == bits,
{
    assert(bits & 0x8000_0000_0000_0000u64 == 0 ==> (bits | 0x8000_0000_0000_0000u64)
        & 0x8000_0000_0000_0000u64 != 0 && (bits | 0x8000_0000_0000_0000u64)
        & !0x8000_0000_0000_0000u64 == bits) by (bit_vector);
    assert(bits & 0x8000_0000_0000_0000u64 != 0 ==> !bits & 0x8000_0000_0000_0000u64 == 0
        && !!bits == bits) by (bit_vector);
}

pub open spec fn min_u64(a: u64, b: u64) -> u64 {
    if a <= b {
        a
    } else {
        b
    }
}

pub open spec fn max_u64(a: u64, b: u64) -> u64 {
    if a >= b {
        a
    } else {
        b
    }
}

fn min_key(a: u64, b: u64) -> (r: u64)
    ensures
        r == min_u64(a, b),
{
    if a <= b {
        a
    } else {
        b
    }
}

fn max_key(a: u64, b: u64) -> (r: u64)
    ensures
        r == max_u64(a, b),
{
    if a >= b {
        a
    } else {
        b
    }
}

/// A point, or any triple of coordinates, held as order keys.
#[derive(Clone, Copy, PartialEq, Eq, Structural)]
pub struct Coords {
    pub x: u64,
    pub y: u64,
    pub z: u64,
}

impl Coords {
    pub open spec fn at(self, axis: int) -> u64 {
        if axis == 0 {
            self.x
        } else if axis == 1 {
            self.y
        } else {
            self.z
        }
    }

    pub fn new(x: u64, y: u64, z: u64) -> (r: Coords)
        ensures
            r == (Coords { x, y, z }),
    {
        Coords { x, y, z }
    }

    /// The coordinate along `axis` (0 is x, 1 is y, 2 is z).
    pub fn get(&self, axis: usize) -> (r: u64)
        requires
            axis < 3,
        ensures
            r == self.at(axis as int),
    {
        if axis == 0 {
            self.x
        } else if axis == 1 {
            self.y
        } else {
            self.z
        }
    }

    pub open spec fn is_number(self) -> bool {
        is_number_key(self.x) && is_number_key(self.y) && is_number_key(self.z)
    }
}

/// The axis along which a box with diagonal `d` is longest; ties go to x
/// first, then to y.
pub open spec fn spec_max_extent(d: Coords) -> usize {
    if d.x >= d.y && d.x >= d.z {
        0
    } else if d.y >= d.z {
        1
    } else {
        2
    }
}

/// The axis along which a box is longest, given the order keys of its
/// diagonal.
pub fn max_extent(diagonal: &Coords) -> (r: usize)
    ensures
        r == spec_max_extent(*diagonal),
        r < 3,
        diagonal.at(r as int) >= diagonal.x && diagonal.at(r as int) >= diagonal.y
            && diagonal.at(r as int) >= diagonal.z,
        forall|k: int| 0 <= k < r ==> diagonal.at(k) < diagonal.at(r as int),
{
    if diagonal.x >= diagonal.y && diagonal.x >= diagonal.z {
        0
    } else if diagonal.y >= diagonal.z {
        1
    } else {
        2
    }
}

/// An axis-aligned box, each corner coordinate held as an order key. The
/// empty box has every lower key at positive infinity and every upper key at
/// negative infinity.
#[derive(Clone, Copy, PartialEq, Eq, Structural)]
pub struct BBox {
    pub min: Coords,
    pub max: Coords,
}

pub open spec fn empty_box() -> BBox {
    BBox {
        min: Coords { x: KEY_POS_INF, y: KEY_POS_INF, z: KEY_POS_INF },
        max: Coords { x: KEY_NEG_INF, y: KEY_NEG_INF, z: KEY_NEG_INF },
    }
}

pub open spec fn spec_union(a: BBox, b: BBox) -> BBox {
    BBox {
        min: Coords {
            x: min_u64(a.min.x, b.min.x),
            y: min_u64(a.min.y, b.min.y),
            z: min_u64(a.min.z, b.min.z),
        },
        max: Coords {
            x: max_u64(a.max.x, b.max.x),
            y: max_u64(a.max.y, b.max.y),
            z: max_u64(a.max.z, b.max.z),
        },
    }
}

pub open spec fn spec_contains(b: BBox, p: Coords) -> bool {
    &&& b.min.x <= p.x && p.x <= b.max.x
    &&& b.min.y <= p.y && p.y <= b.max.y
    &&& b.min.z <= p.z && p.z <= b.max.z
}

pub open spec fn spec_intersect(a: BBox, b: BBox) -> bool {
    &&& a.min.x <= b.max.x && a.max.x >= b.min.x
    &&& a.min.y <= b.max.y && a.max.y >= b.min.y
    &&& a.min.z <= b.max.z && a.max.z >= b.min.z
}

/// `inner` lies within `outer` on every axis.
pub open spec fn box_within(inner: BBox, outer: BBox) -> bool {
    &&& outer.min.x <= inner.min.x && inner.max.x <= outer.max.x
    &&& outer.min.y <= inner.min.y && inner.max.y <= outer.max.y
    &&& outer.min.z <= inner.min.z && inner.max.z <= outer.max.z
}

impl Default for BBox {
    fn default() -> (r: BBox)
        ensures
            r == empty_box(),
    {
        BBox {
            min: Coords { x: KEY_POS_INF, y: KEY_POS_INF, z: KEY_POS_INF },
            max: Coords { x: KEY_NEG_INF, y: KEY_NEG_INF, z: KEY_NEG_INF },
        }
    }
}

impl BBox {
    /// Every corner coordinate stands for a number.
    pub open spec fn is_number(self) -> bool {
        self.min.is_number() && self.max.is_number()
    }

    pub fn new(min: Coords, max: Coords) -> (r: BBox)
        ensures
            r == (BBox { min, max }),
    {
        BBox { min, max }
    }

    pub fn union(&self, other: &BBox) -> (r: BBox)
        ensures
            r == spec_union(*self, *other),
    {
        BBox {
            min: Coords {
                x: min_key(self.min.x, other.min.x),
                y: min_key(self.min.y, other.min.y),
                z: min_key(self.min.z, other.min.z),
            },
            max: Coords {
                x: max_key(self.max.x, other.max.x),
                y: max_key(self.max.y, other.max.y),
                z: max_key(self.max.z, other.max.z),
            },
        }
    }

    /// Whether the two boxes overlap, boundaries included.
    pub fn intersect(&self, other: &BBox) -> (r: bool)
        ensures
            r == spec_intersect(*self, *other),
    {
        self.min.x <= other.max.x && self.max.x >= other.min.x && self.min.y <= other.max.y
            && self.max.y >= other.min.y && self.min.z <= other.max.z && self.max.z
            >= other.min.z
    }

    /// Whether the point lies in the box, boundaries included.
    pub fn contains(&self, point: &Coords) -> (r: bool)
        ensures
            r == spec_contains(*self, *point),
    {
        self.min.x <= point.x && self.max.x >= point.x && self.min.y <= point.y && self.max.y
            >= point.y && self.min.z <= point.z && self.max.z >= point.z
    }
}

/// The union of two boxes contains every point of either box.
pub proof fn lemma_union_contains(a: BBox, b: BBox, p: Coords)
    requires
        spec_contains(a, p) || spec_contains(b, p),
    ensures
        spec_contains(spec_union(a, b), p),
{
}

/// Each box lies within its union with another.
pub proof fn lemma_union_covers(a: BBox, b: BBox)
    ensures
        box_within(a, spec_union(a, b)),
        box_within(b, spec_union(a, b)),
{
}

/// Union does not depend on the order of its operands.
pub proof fn lemma_union_commutative(a: BBox, b: BBox)
    ensures
        spec_union(a, b) == spec_union(b, a),
{
}

/// Union does not depend on how three boxes are grouped.
pub proof fn lemma_union_associative(a: BBox, b: BBox, c: BBox)
    ensures
        spec_union(spec_union(a, b), c) == spec_union(a, spec_union(b, c)),
{
}

/// The empty box is the identity of union on boxes whose keys are numbers.
pub proof fn lemma_union_empty_identity(b: BBox)
    requires
        b.is_number(),
    ensures
        spec_union(empty_box(), b) == b,
        spec_union(b, empty_box()) == b,
{
}

/// The empty box contains no point.
pub proof fn lemma_empty_contains_nothing(p: Coords)
    requires
        p.is_number(),
    ensures
        !spec_contains(empty_box(), p),
{
}

/// The union of all the boxes of `s`, starting from the empty box.
pub open spec fn spec_union_all(s: Seq<BBox>) -> BBox
    decreases s.len(),
{
    if s.len() == 0 {
        empty_box()
    } else {
        spec_union(spec_union_all(s.drop_last()), s.last())
    }
}

/// The union of all the boxes of `boxes`; the empty box where there are none.
pub fn union_all(boxes: &Vec<BBox>) -> (r: BBox)
    ensures
        r == spec_union_all(boxes@),
        forall|i: int| 0 <= i < boxes.len() ==> box_within(#[trigger] boxes@[i], r),
{
    let mut acc = BBox::default();
    let mut i: usize = 0;
    while i < boxes.len()
        invariant
            i <= boxes.len(),
            acc == spec_union_all(boxes@.subrange(0, i as int)),
            forall|j: int| 0 <= j < i ==> box_within(#[trigger] boxes@[j], acc),
        decreases boxes.len() - i,
    {
        proof {
            assert(boxes@.subrange(0, i + 1).drop_last() =~= boxes@.subrange(0, i as int));
            lemma_union_covers(acc, boxes@[i as int]);
        }
        acc = acc.union(&boxes[i]);
        i += 1;
    }
    proof {
        assert(boxes@.subrange(0, boxes.len() as int) =~= boxes@);
    }
    acc
}

} // verus!
