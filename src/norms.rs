//! Distances between lattice sites.
use vstd::prelude::*;

verus! {

/// The L1 distance between sites `a` and `b` of a ring of `l` sites: the
/// number of steps along the shorter way round.
pub open spec fn ring_l1(l: int, a: int, b: int) -> int {
    let d = if a >= b { a - b } else { b - a };
    if d <= l - d { d } else { l - d }
}

/// The metrics by which the distance between two sites is measured.
pub enum Norm {
    /// Sites lie on a ring; the distance is the shorter way round.
    L1,
}

impl Norm {
    pub open spec fn distance_spec(&self, l: int, a: int, b: int) -> int {
        match self {
            Norm::L1 => ring_l1(l, a, b),
        }
    }

    /// The distance between sites `a` and `b` of a lattice of `l` sites.
    pub fn distance(&self, l: usize, a: usize, b: usize) -> (d: usize)
        requires
            a < l,
            b < l,
        ensures
            d as int == self.distance_spec(l as int, a as int, b as int),
    {
        match self {
            Norm::L1 => {
                let d = if a >= b { a - b } else { b - a };
                if d <= l - d { d } else { l - d }
            },
        }
    }

    /// A distance is symmetric, zero exactly between a site and itself, and
    /// never more than half the lattice.
    pub proof fn lemma_metric(&self, l: int, a: int, b: int)
        requires
            0 <= a < l,
            0 <= b < l,
        ensures
            self.distance_spec(l, a, b) == self.distance_spec(l, b, a),
            self.distance_spec(l, a, b) >= 0,
            self.distance_spec(l, a, b) == 0 <==> a == b,
            2 * self.distance_spec(l, a, b) <= l,
    {
    }
}

} // verus!
