//! Where the points of a trip come from: a zone's candidate pools, and the per-zone subsamplers
//! that draw from a pool or from the zone's shape.

use vstd::prelude::*;
use crate::point::{is_positive_weight, Coord, WeightedPoint};

verus! {

/// What the library asks of its caller whenever chance or geometry decides.
///
/// Each answer may be anything: what the library states of its results holds whatever these
/// methods return. A run is reproducible when they are (a seeded generator, drawn in the order
/// the library calls them).
pub trait Draws {
    /// A point drawn uniformly from the bounding box of zone `zone`.
    fn point_in_bounds(&mut self, zone: usize) -> Coord;

    /// Whether `point` lies strictly inside zone `zone` (not on its boundary).
    fn zone_contains(&mut self, zone: usize, point: Coord) -> bool;

    /// An index into `pool`, drawn with probability proportional to each point's weight.
    fn weighted_index(&mut self, pool: &Vec<WeightedPoint>) -> usize;

    /// The great-circle distance in metres between two points, as the bit pattern of a double.
    fn distance_meters(&mut self, from: Coord, to: Coord) -> u64;
}

/// The candidate points of each zone, by zone number.
pub type Pools = Vec<Vec<WeightedPoint>>;

/// Specifies how specific points should be generated within a zone.
#[derive(Clone, Debug)]
pub enum Subsample {
    /// Pick points uniformly at random within the zone's shape (not on its boundary).
    RandomPoints,
    /// Pick from these points, those within the zone's shape, each with a chance in proportion
    /// to its weight. A point inside several (overlapping) zones belongs to each of them.
    WeightedPoints(Vec<WeightedPoint>),
}

/// The pool that the indices `inside` pick out of `points`: in order, each point whose index is
/// in range and whose weight is a finite number above zero.
pub open spec fn pool_of(points: Seq<WeightedPoint>, inside: Seq<usize>) -> Seq<WeightedPoint>
    decreases inside.len(),
{
    if inside.len() == 0 {
        Seq::empty()
    } else {
        let init = pool_of(points, inside.drop_last());
        let i = inside.last();
        if i < points.len() && is_positive_weight(points[i as int].weight) {
            init.push(points[i as int])
        } else {
            init
        }
    }
}

/// Every point of `pool_of(points, inside)` is one of `points` with a positive weight.
pub proof fn lemma_pool_members(points: Seq<WeightedPoint>, inside: Seq<usize>, k: int)
    requires
        0 <= k < pool_of(points, inside).len(),
    ensures
        is_positive_weight(pool_of(points, inside)[k].weight),
        exists|j: int| 0 <= j < points.len() && points[j] == pool_of(points, inside)[k],
    decreases inside.len(),
{
    let init = pool_of(points, inside.drop_last());
    if k < init.len() {
        lemma_pool_members(points, inside.drop_last(), k);
    } else {
        let i = inside.last() as int;
        assert(points[i] == pool_of(points, inside)[k]);
    }
}

/// The pool of one zone: the points at the indices `inside` (found by the caller to lie strictly
/// inside the zone) whose weight is a finite number above zero. A zero, negative or NaN weight
/// could never be drawn in proportion to it, so such a point is left out.
pub fn zone_pool(points: &Vec<WeightedPoint>, inside: &Vec<usize>) -> (r: Vec<WeightedPoint>)
    ensures
        r@ == pool_of(points@, inside@),
{
    let mut pool: Vec<WeightedPoint> = Vec::new();
    let mut k: usize = 0;
    while k < inside.len()
        invariant
            k <= inside@.len(),
            pool@ == pool_of(points@, inside@.subrange(0, k as int)),
        decreases inside@.len() - k,
    {
        let ghost before = inside@.subrange(0, k as int);
        assert(inside@.subrange(0, k + 1).drop_last() =~= before);
        let i = inside[k];
        if i < points.len() && points[i].has_positive_weight() {
            pool.push(points[i]);
        }
        k = k + 1;
    }
    assert(inside@.subrange(0, inside@.len() as int) =~= inside@);
    pool
}

/// The pools of all zones: for zone `z`, `zone_pool(points, inside[z])`.
pub fn points_per_zone(points: &Vec<WeightedPoint>, inside: &Vec<Vec<usize>>) -> (r: Pools)
    ensures
        r@.len() == inside@.len(),
        forall|z: int| 0 <= z < r@.len() ==> (#[trigger] r@[z])@ == pool_of(points@, inside@[z]@),
{
    let mut pools: Pools = Vec::new();
    let mut z: usize = 0;
    while z < inside.len()
        invariant
            z <= inside@.len(),
            pools@.len() == z,
            forall|y: int|
                0 <= y < z ==> (#[trigger] pools@[y])@ == pool_of(points@, inside@[y]@),
        decreases inside@.len() - z,
    {
        let pool = zone_pool(points, &inside[z]);
        pools.push(pool);
        z = z + 1;
    }
    pools
}

/// `c` is one of the points of `pool`.
pub open spec fn in_pool(pool: Seq<WeightedPoint>, c: Coord) -> bool {
    exists|i: int| 0 <= i < pool.len() && pool[i].point == c
}

/// The point of `pool` at index `i`, if there is one.
pub fn pick(pool: &Vec<WeightedPoint>, i: usize) -> (r: Option<Coord>)
    ensures
        r == (if i < pool@.len() {
            Some(pool@[i as int].point)
        } else {
            None
        }),
{
    if i < pool.len() {
        Some(pool[i].point)
    } else {
        None
    }
}

/// A point drawn in a zone's bounding box is kept exactly when it was found inside the zone.
pub fn keep_inside(point: Coord, inside: bool) -> (r: Option<Coord>)
    ensures
        r == (if inside {
            Some(point)
        } else {
            None
        }),
{
    if inside {
        Some(point)
    } else {
        None
    }
}

/// How the points of one zone, in one role (origin or destination), are drawn.
#[derive(Clone, Copy, Debug)]
pub enum Subsampler {
    /// Uniformly inside the zone's shape, by drawing in its bounding box until a point falls
    /// inside.
    RandomPoints { zone: usize },
    /// From the zone's pool of `count` candidate points, in proportion to their weights.
    WeightedPoints { zone: usize, count: usize },
}

impl Subsampler {
    /// The subsampler draws from `pools` as it says.
    pub open spec fn fits(self, pools: Option<Pools>) -> bool {
        match self {
            Subsampler::RandomPoints { .. } => true,
            Subsampler::WeightedPoints { zone, count } => pools is Some && zone < pools.unwrap()@.len()
                && count == pools.unwrap()@[zone as int]@.len() && count > 0,
        }
    }

    /// The pool that a `WeightedPoints` subsampler draws from.
    pub open spec fn pool(self, pools: Option<Pools>) -> Seq<WeightedPoint> {
        match self {
            Subsampler::RandomPoints { .. } => Seq::empty(),
            Subsampler::WeightedPoints { zone, .. } => pools.unwrap()@[zone as int]@,
        }
    }

    /// What a drawn point is known to be: for `WeightedPoints`, one of the pool's points.
    pub open spec fn yields(self, pools: Option<Pools>, c: Coord) -> bool {
        self is WeightedPoints ==> in_pool(self.pool(pools), c)
    }

    /// The number of candidate points: `None` for random points in the shape (no bound), the
    /// pool's size for weighted points.
    pub open spec fn capacity(self) -> Option<nat> {
        match self {
            Subsampler::RandomPoints { .. } => None,
            Subsampler::WeightedPoints { count, .. } => Some(count as nat),
        }
    }

    pub fn num_points(&self) -> (r: Option<usize>)
        ensures
            r is Some <==> self.capacity() is Some,
            r is Some ==> r.unwrap() as nat == self.capacity().unwrap(),
    {
        match self {
            Subsampler::RandomPoints { .. } => None,
            Subsampler::WeightedPoints { count, .. } => Some(*count),
        }
    }

    /// Draws one point. Gives up and returns `None` when no point inside the zone came from
    /// `max_attempts` draws in its bounding box, or when the drawn pool index is out of range.
    pub fn sample<D: Draws>(&self, pools: &Option<Pools>, draws: &mut D, max_attempts: u64) -> (r:
        Option<Coord>)
        requires
            self.fits(*pools),
        ensures
            r is Some ==> self.yields(*pools, r.unwrap()),
    {
        match self {
            Subsampler::RandomPoints { zone } => {
                let mut attempts: u64 = 0;
                while attempts < max_attempts
                    invariant
                        *self is RandomPoints,
                    decreases max_attempts - attempts,
                {
                    let p = draws.point_in_bounds(*zone);
                    let inside = draws.zone_contains(*zone, p);
                    if let Some(p) = keep_inside(p, inside) {
                        return Some(p);
                    }
                    attempts = attempts + 1;
                }
                None
            },
            Subsampler::WeightedPoints { zone, count } => {
                let pool = match pools {
                    Some(p) => &p[*zone],
                    None => {
                        return None;
                    },
                };
                let i = draws.weighted_index(pool);
                pick(pool, i)
            },
        }
    }
}

} // verus!
