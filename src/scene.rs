use vstd::prelude::*;

use crate::bvh::{dist, earlier_are_farther, hit_test_is, index_range, nearest_by_scan, seq_nearest};

verus! {

/// The objects of a scene in the order they were added. Objects are only
/// ever appended, and are known elsewhere by their position.
pub struct Scene<O> {
    pub objects: Vec<O>,
}

impl<O> Scene<O> {
    pub fn new() -> (r: Scene<O>)
        ensures
            r.objects@.len() == 0,
    {
        Scene { objects: Vec::new() }
    }

    /// Appends `object`; it is known from now on by the position returned.
    pub fn add(&mut self, object: O) -> (r: usize)
        ensures
            final(self).objects@ == old(self).objects@.push(object),
            r == old(self).objects.len(),
    {
        let r = self.objects.len();
        self.objects.push(object);
        r
    }

    /// The nearest hit over all objects, testing each in turn: `prim_hit`
    /// gives the hit distance key of the object at a position, if any.
    pub fn hit(&self, prim_hit: &impl Fn(usize) -> Option<u64>) -> (r: Option<(usize, u64)>)
        requires
            forall|i: usize| #[trigger] prim_hit.requires((i,)),
        ensures
            forall|hits: spec_fn(usize) -> Option<u64>| #[trigger] hit_test_is(*prim_hit, hits)
                ==> dist(r) == seq_nearest(index_range(self.objects.len() as nat), hits),
            r matches Some((i, t)) ==> i < self.objects.len() && prim_hit.ensures((i,), Some(t)),
            r matches Some((i, t)) ==> forall|hits: spec_fn(usize) -> Option<u64>| #[trigger]
                hit_test_is(*prim_hit, hits) ==> earlier_are_farther(hits, i, t),
    {
        nearest_by_scan(self.objects.len(), prim_hit)
    }
}

} // verus!
