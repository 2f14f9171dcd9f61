//! Bounding box for tracking the region a recording touches.

use vstd::prelude::*;

verus! {

/// Bounding box for tracking an affected region.  A fresh box is empty:
/// its minimum corner sits above its maximum corner in every axis.
#[derive(Clone)]
pub struct BoundingBox {
    pub min: [i32; 3],
    pub max: [i32; 3],
}

impl BoundingBox {
    /// The empty box.
    pub fn new() -> (r: BoundingBox)
        ensures
            r.min@[0] == i32::MAX && r.min@[1] == i32::MAX && r.min@[2] == i32::MAX,
            r.max@[0] == i32::MIN && r.max@[1] == i32::MIN && r.max@[2] == i32::MIN,
    {
        let r = BoundingBox { min: [i32::MAX, i32::MAX, i32::MAX], max: [
            i32::MIN,
            i32::MIN,
            i32::MIN,
        ] };
        assert(r.min@[0] == i32::MAX && r.min@[1] == i32::MAX && r.min@[2] == i32::MAX);
        assert(r.max@[0] == i32::MIN && r.max@[1] == i32::MIN && r.max@[2] == i32::MIN);
        r
    }

    /// Expands the box to include a position.
    pub fn expand(&mut self, pos: [i32; 3])
        ensures
            forall|k: int| 0 <= k < 3 ==> final(self).min@[k] == (if pos@[k] < old(self).min@[k] {
                pos@[k]
            } else {
                old(self).min@[k]
            }),
            forall|k: int| 0 <= k < 3 ==> final(self).max@[k] == (if pos@[k] > old(self).max@[k] {
                pos@[k]
            } else {
                old(self).max@[k]
            }),
    {
        let ghost oldmin = self.min@;
        let ghost oldmax = self.max@;
        assert(pos@[0] == pos[0] && pos@[1] == pos[1] && pos@[2] == pos[2]);
        let nmin = [
            if pos[0] < self.min[0] { pos[0] } else { self.min[0] },
            if pos[1] < self.min[1] { pos[1] } else { self.min[1] },
            if pos[2] < self.min[2] { pos[2] } else { self.min[2] },
        ];
        let nmax = [
            if pos[0] > self.max[0] { pos[0] } else { self.max[0] },
            if pos[1] > self.max[1] { pos[1] } else { self.max[1] },
            if pos[2] > self.max[2] { pos[2] } else { self.max[2] },
        ];
        self.min = nmin;
        self.max = nmax;
        proof {
            assert forall|k: int| 0 <= k < 3 implies self.min@[k] == (if pos@[k] < oldmin[k] {
                pos@[k]
            } else {
                oldmin[k]
            }) && self.max@[k] == (if pos@[k] > oldmax[k] {
                pos@[k]
            } else {
                oldmax[k]
            }) by {
                assert(k == 0 || k == 1 || k == 2);
            }
        }
    }

    /// Whether the box holds any point at all.
    pub fn is_valid(&self) -> (r: bool)
        ensures
            r == (self.min@[0] <= self.max@[0] && self.min@[1] <= self.max@[1] && self.min@[2]
                <= self.max@[2]),
    {
        let r = self.min[0] <= self.max[0] && self.min[1] <= self.max[1] && self.min[2]
            <= self.max[2];
        assert(self.min@[0] == self.min[0] && self.min@[1] == self.min[1] && self.min@[2]
            == self.min[2]);
        assert(self.max@[0] == self.max[0] && self.max@[1] == self.max[1] && self.max@[2]
            == self.max[2]);
        r
    }

    /// The cleanup region covering the box with the given padding.
    pub fn to_cleanup_region(&self, padding: i32) -> (r: [[i32; 3]; 2])
        requires
            forall|k: int| 0 <= k < 3 ==> i32::MIN <= #[trigger] self.min@[k] - padding <= i32::MAX,
            forall|k: int| 0 <= k < 3 ==> i32::MIN <= #[trigger] self.max@[k] + padding <= i32::MAX,
        ensures
            forall|k: int| 0 <= k < 3 ==> #[trigger] r@[0]@[k] == self.min@[k] - padding,
            forall|k: int| 0 <= k < 3 ==> #[trigger] r@[1]@[k] == self.max@[k] + padding,
    {
        assert(self.min@[0] == self.min[0] && self.min@[1] == self.min[1] && self.min@[2]
            == self.min[2]);
        assert(self.max@[0] == self.max[0] && self.max@[1] == self.max[1] && self.max@[2]
            == self.max[2]);
        let r = [
            [self.min[0] - padding, self.min[1] - padding, self.min[2] - padding],
            [self.max[0] + padding, self.max[1] + padding, self.max[2] + padding],
        ];
        proof {
            assert forall|k: int| 0 <= k < 3 implies r@[0]@[k] == self.min@[k] - padding
                && r@[1]@[k] == self.max@[k] + padding by {
                assert(k == 0 || k == 1 || k == 2);
            }
        }
        r
    }
}

impl Default for BoundingBox {
    /// The default box is the empty box.
    fn default() -> (r: Self)
        ensures
            r.min@[0] == i32::MAX && r.min@[1] == i32::MAX && r.min@[2] == i32::MAX,
            r.max@[0] == i32::MIN && r.max@[1] == i32::MIN && r.max@[2] == i32::MIN,
    {
        BoundingBox::new()
    }
}

} // verus!
