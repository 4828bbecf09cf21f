//! A fixed-radius two-dimensional search index over inserted
//! `(x, y, identifier)` entries: a radius query returns every entry within
//! the configured radius of the query point, with its squared distance.
//!
//! Distances are exact: coordinates are fixed-point integers and the index
//! compares squared distances, so an entry lies within the radius iff its
//! squared distance is at most the squared radius.

use vstd::prelude::*;

verus! {

/// Errors of the interpolation configuration.
#[derive(Clone, Copy, PartialEq, Eq, Structural, Debug)]
pub enum ConfigError {
    /// The search radius must be positive.
    NonPositiveRadius,
    /// The grid resolution must be positive.
    NonPositiveResolution,
}

/// Magnitude bound on coordinates and radii, so that squared distances
/// cannot overflow a 64-bit computation.
pub const COORD_LIMIT: i64 = 1073741824;

/// The squared Euclidean distance between two points.
pub open spec fn spec_dist_sq(x1: int, y1: int, x2: int, y2: int) -> int {
    (x1 - x2) * (x1 - x2) + (y1 - y2) * (y1 - y2)
}

/// An entry lies within `radius` of the query point.
pub open spec fn within_radius(e: (i64, i64, usize), qx: int, qy: int, radius: int) -> bool {
    spec_dist_sq(e.0 as int, e.1 as int, qx, qy) <= radius * radius
}

/// A coordinate pair lies within the magnitude bound.
pub open spec fn coord_in_range(x: int, y: int) -> bool {
    -COORD_LIMIT <= x <= COORD_LIMIT && -COORD_LIMIT <= y <= COORD_LIMIT
}

/// The fixed-radius search index: entries are kept in insertion order.
pub struct SpatialIndex {
    pub radius: i64,
    pub entries: Vec<(i64, i64, usize)>,
}

proof fn lemma_dist_sq_bounds(x1: int, y1: int, x2: int, y2: int)
    by (nonlinear_arith)
    requires
        coord_in_range(x1, y1),
        coord_in_range(x2, y2),
    ensures
        0 <= spec_dist_sq(x1, y1, x2, y2) <= u64::MAX,
        0 <= (x1 - x2) * (x1 - x2) <= i64::MAX,
        0 <= (y1 - y2) * (y1 - y2) <= i64::MAX,
{
}

impl SpatialIndex {
    /// The radius is positive and every entry is in coordinate range.
    pub open spec fn wf(self) -> bool {
        &&& 1 <= self.radius <= COORD_LIMIT
        &&& forall|i: int|
            0 <= i < self.entries@.len() ==> coord_in_range(
                (#[trigger] self.entries@[i]).0 as int,
                self.entries@[i].1 as int,
            )
    }

    /// Builds an empty index for the given search radius; a non-positive
    /// radius is rejected as a configuration error.
    pub fn new(radius: i64) -> (r: Result<SpatialIndex, ConfigError>)
        requires
            radius <= COORD_LIMIT,
        ensures
            radius >= 1 ==> (r matches Ok(s) && s.wf() && s.radius == radius && s.entries@
                =~= Seq::<(i64, i64, usize)>::empty()),
            radius < 1 ==> r == Err::<SpatialIndex, ConfigError>(ConfigError::NonPositiveRadius),
    {
        if radius < 1 {
            Err(ConfigError::NonPositiveRadius)
        } else {
            Ok(SpatialIndex { radius, entries: Vec::new() })
        }
    }

    /// Inserts an entry; existing entries and their order are kept.
    pub fn insert(&mut self, x: i64, y: i64, id: usize)
        requires
            old(self).wf(),
            coord_in_range(x as int, y as int),
        ensures
            final(self).wf(),
            final(self).radius == old(self).radius,
            final(self).entries@ == old(self).entries@.push((x, y, id)),
    {
        self.entries.push((x, y, id));
    }

    /// Answers a radius query: exactly the entries within the configured
    /// radius of `(qx, qy)`, in insertion order, each as its identifier
    /// paired with its squared distance from the query point.
    pub fn search(&self, qx: i64, qy: i64) -> (res: Vec<(usize, u64)>)
        requires
            self.wf(),
            coord_in_range(qx as int, qy as int),
        ensures
            res@ == self.entries@.filter(
                query_filter(qx as int, qy as int, self.radius as int),
            ).map_values(query_result(qx as int, qy as int)),
    {
        let ghost pred = query_filter(qx as int, qy as int, self.radius as int);
        let ghost f = query_result(qx as int, qy as int);
        proof {
            assert(self.radius as int * self.radius as int <= u64::MAX) by (nonlinear_arith)
                requires
                    1 <= self.radius <= COORD_LIMIT,
            ;
        }
        let r_sq: u64 = (self.radius as u64) * (self.radius as u64);
        let mut res: Vec<(usize, u64)> = Vec::new();
        let mut i: usize = 0;
        proof {
            assert(self.entries@.take(0) =~= Seq::<(i64, i64, usize)>::empty());
            reveal(Seq::filter);
            assert(res@ =~= self.entries@.take(0).filter(pred).map_values(f));
        }
        while i < self.entries.len()
            invariant
                self.wf(),
                coord_in_range(qx as int, qy as int),
                i <= self.entries@.len(),
                r_sq == self.radius as int * self.radius as int,
                pred == query_filter(qx as int, qy as int, self.radius as int),
                f == query_result(qx as int, qy as int),
                res@ == self.entries@.take(i as int).filter(pred).map_values(f),
            decreases self.entries@.len() - i,
        {
            let e = self.entries[i];
            proof {
                lemma_dist_sq_bounds(e.0 as int, e.1 as int, qx as int, qy as int);
            }
            let dx = e.0 - qx;
            let dy = e.1 - qy;
            let d_sq: u64 = ((dx * dx) as u64) + ((dy * dy) as u64);
            proof {
                assert(d_sq == spec_dist_sq(e.0 as int, e.1 as int, qx as int, qy as int));
            }
            if d_sq <= r_sq {
                res.push((e.2, d_sq));
            }
            proof {
                let taken = self.entries@.take(i as int);
                let grown = self.entries@.take(i as int + 1);
                assert(grown =~= taken.push(e));
                assert(grown.drop_last() =~= taken);
                assert(grown.last() == e);
                reveal(Seq::filter);
                assert(grown.filter(pred) == if pred(e) {
                    taken.filter(pred).push(e)
                } else {
                    taken.filter(pred)
                });
                assert((d_sq <= r_sq) == pred(e));
                if pred(e) {
                    assert(taken.filter(pred).push(e).map_values(f) =~= taken.filter(
                        pred,
                    ).map_values(f).push(f(e)));
                }
            }
            i = i + 1;
        }
        proof {
            assert(self.entries@.take(self.entries@.len() as int) =~= self.entries@);
        }
        res
    }
}

/// The predicate a radius query applies to an entry.
pub open spec fn query_filter(qx: int, qy: int, radius: int) -> spec_fn((i64, i64, usize)) -> bool {
    |e: (i64, i64, usize)| within_radius(e, qx, qy, radius)
}

/// The `(identifier, squared distance)` pair a radius query reports for an
/// entry.
pub open spec fn query_result(qx: int, qy: int) -> spec_fn((i64, i64, usize)) -> (usize, u64) {
    |e: (i64, i64, usize)| (e.2, spec_dist_sq(e.0 as int, e.1 as int, qx, qy) as u64)
}

} // verus!
