//! Points as exact bit patterns, candidate points with weights, and the set of pairs already
//! emitted.
//!
//! A coordinate is held as the bit pattern of the IEEE-754 double that the caller measured, so
//! that two points are compared exactly as the doubles are: bit for bit, except that `-0.0` and
//! `0.0` are the same number.

use vstd::prelude::*;
use std::collections::{HashMap, HashSet};

verus! {

broadcast use vstd::std_specs::hash::group_hash_axioms;

/// The bit pattern of `-0.0`.
pub const NEGATIVE_ZERO: u64 = 0x8000_0000_0000_0000;

/// The bit pattern of positive infinity; the patterns above it with the sign bit clear are NaN.
pub const POSITIVE_INFINITY: u64 = 0x7ff0_0000_0000_0000;

/// All bits but the sign.
pub const MAGNITUDE: u64 = 0x7fff_ffff_ffff_ffff;

/// The bit pattern that stands for the same number as `b`: `-0.0` becomes `0.0`.
pub open spec fn canonical(b: u64) -> u64 {
    if b == NEGATIVE_ZERO {
        0
    } else {
        b
    }
}

pub open spec fn is_nan(b: u64) -> bool {
    b & MAGNITUDE > POSITIVE_INFINITY
}

/// The double is below zero (`-0.0` is not).
pub open spec fn is_below_zero(b: u64) -> bool {
    b & NEGATIVE_ZERO != 0 && b & MAGNITUDE != 0
}

/// `a >= b` on the doubles with these bit patterns, as IEEE-754 compares them: false when either
/// is NaN; otherwise numbers at least zero are ordered as their magnitudes are, numbers below
/// zero the other way round, and every number at least zero is above every number below it.
pub open spec fn at_least(a: u64, b: u64) -> bool {
    if is_nan(a) || is_nan(b) {
        false
    } else if !is_below_zero(a) && !is_below_zero(b) {
        a & MAGNITUDE >= b & MAGNITUDE
    } else if !is_below_zero(a) {
        true
    } else if !is_below_zero(b) {
        false
    } else {
        a & MAGNITUDE <= b & MAGNITUDE
    }
}

/// Whether the double with bit pattern `b` is a finite number above zero.
pub open spec fn is_positive_weight(b: u64) -> bool {
    0 < b && b < POSITIVE_INFINITY
}

/// A point, as the bit patterns of its two doubles.
#[derive(Clone, Copy, Debug)]
pub struct Coord {
    pub x: u64,
    pub y: u64,
}

impl Coord {
    /// The point as one 128-bit number; two points are the same exactly when these are equal.
    pub open spec fn key(self) -> u128 {
        ((canonical(self.x) as u128) << 64u128) | (canonical(self.y) as u128)
    }

    pub open spec fn same_point(self, other: Coord) -> bool {
        canonical(self.x) == canonical(other.x) && canonical(self.y) == canonical(other.y)
    }

    pub fn key_of(&self) -> (r: u128)
        ensures
            r == self.key(),
    {
        let x = if self.x == NEGATIVE_ZERO {
            0
        } else {
            self.x
        };
        let y = if self.y == NEGATIVE_ZERO {
            0
        } else {
            self.y
        };
        ((x as u128) << 64u128) | (y as u128)
    }
}

/// Two points have the same key exactly when they are the same point.
pub proof fn lemma_key_exact(a: Coord, b: Coord)
    ensures
        a.key() == b.key() <==> a.same_point(b),
{
    let (ax, ay, bx, by) = (canonical(a.x), canonical(a.y), canonical(b.x), canonical(b.y));
    assert((((ax as u128) << 64u128) | (ay as u128)) == (((bx as u128) << 64u128) | (
    by as u128)) <==> (ax == bx && ay == by)) by (bit_vector);
}

/// Whether `distance` is at least `minimum`, as doubles compare (bit patterns of doubles).
pub fn far_enough(distance: u64, minimum: u64) -> (r: bool)
    ensures
        r == at_least(distance, minimum),
{
    let (a, b) = (distance & MAGNITUDE, minimum & MAGNITUDE);
    if a > POSITIVE_INFINITY || b > POSITIVE_INFINITY {
        return false;
    }
    let a_below = distance & NEGATIVE_ZERO != 0 && a != 0;
    let b_below = minimum & NEGATIVE_ZERO != 0 && b != 0;
    if !a_below && !b_below {
        a >= b
    } else if !a_below {
        true
    } else if !b_below {
        false
    } else {
        a <= b
    }
}

/// A candidate point with its relative weight (the bit pattern of a double). Higher weights are
/// more likely to be drawn.
#[derive(Clone, Copy, Debug)]
pub struct WeightedPoint {
    pub point: Coord,
    pub weight: u64,
}

impl WeightedPoint {
    /// Whether the weight is a finite number above zero.
    pub fn has_positive_weight(&self) -> (r: bool)
        ensures
            r == is_positive_weight(self.weight),
    {
        0 < self.weight && self.weight < POSITIVE_INFINITY
    }
}

/// A trip's two ends, as the pair of their keys.
pub open spec fn pair_key(origin: Coord, destination: Coord) -> (u128, u128) {
    (origin.key(), destination.key())
}

/// The (origin, destination) pairs emitted so far, compared exactly.
pub struct PairSet {
    by_origin: HashMap<u128, HashSet<u128>>,
}

impl PairSet {
    /// The pairs in the set, by key.
    pub closed spec fn view(&self) -> Set<(u128, u128)> {
        Set::new(
            |p: (u128, u128)|
                self.by_origin@.contains_key(p.0) && self.by_origin@[p.0]@.contains(p.1),
        )
    }

    pub fn new() -> (r: PairSet)
        ensures
            r.view() == Set::<(u128, u128)>::empty(),
    {
        let r = PairSet { by_origin: HashMap::new() };
        assert(r.view() =~= Set::<(u128, u128)>::empty());
        r
    }

    pub fn contains(&self, origin: &Coord, destination: &Coord) -> (r: bool)
        ensures
            r == self.view().contains(pair_key(*origin, *destination)),
    {
        let o = origin.key_of();
        let d = destination.key_of();
        match self.by_origin.get(&o) {
            Some(ends) => ends.contains(&d),
            None => false,
        }
    }

    pub fn insert(&mut self, origin: &Coord, destination: &Coord)
        ensures
            final(self).view() == old(self).view().insert(pair_key(*origin, *destination)),
    {
        let o = origin.key_of();
        let d = destination.key_of();
        let ghost before = self.view();
        let mut ends = match self.by_origin.remove(&o) {
            Some(ends) => ends,
            None => HashSet::new(),
        };
        ends.insert(d);
        self.by_origin.insert(o, ends);
        assert(self.view() =~= before.insert((o, d)));
    }
}

} // verus!
