//! The disaggregation engine: from one aggregate row to the trips that stand for it.
//!
//! Each row names an origin zone and a destination zone. The engine works out how many trips the
//! row stands for, then draws each trip's two ends from the zones' subsamplers until a pair
//! passes the minimum-distance test (and, when pairs must be unique, has not been emitted
//! before). A trip that finds no such pair within a bounded number of attempts ends the run with
//! `SamplingExhausted`, rather than looping for ever.

use vstd::prelude::*;
use crate::point::{at_least, far_enough, lemma_key_exact, pair_key, Coord, PairSet};
use crate::quantity::{is_demand, lemma_exact_value, text_value, read_number, reading_of, repeat_count, repeat_of, same_ratio, share_of, Quantity, Reading};
use crate::row::{cell, count_of, get_cell, is_first_column, lemma_first_column_unique, mode_columns, mode_counts, rescale_row, rescaled, Property, Row, Share};
use crate::sampler::{points_per_zone, pool_of, Draws, Pools, Subsample, Subsampler};

verus! {

/// Why a row, or the whole run, fails.
#[derive(Debug)]
pub enum JitterError {
    /// Input that is structurally invalid (a zone without a name, a shape that is not an area).
    MalformedInput { reason: String },
    /// A column that the run needs is absent, or the demand column does not hold a number.
    MissingOrNonNumericColumn { column: String },
    /// The demand column holds a number below zero.
    NegativeDemand { column: String },
    /// A demand or mode count is a number too large, or with too many digits after the point,
    /// to be split exactly.
    OutOfRange { column: String },
    /// The row names a zone that the registry does not hold.
    UnknownZone { zone: String },
    /// Weighted points were asked for, and the zone has none.
    NoCandidatePoints { zone: String },
    /// More distinct pairs are asked for than the two pools can make.
    InfeasibleUniqueness { requested: u64, origin_points: usize, destination_points: usize },
    /// The zone's shape has no bounding box to draw points in.
    DegenerateGeometry { zone: String },
    /// No acceptable pair turned up within the allowed number of attempts.
    SamplingExhausted { attempts: u64 },
}

/// The rules that every drawn pair must meet.
#[derive(Clone, Copy, Debug)]
pub struct Rules {
    /// The least great-circle distance between a trip's two ends, in metres, as the bit pattern
    /// of a double. A pair passes when its distance `>=` this, as doubles compare.
    pub min_distance_meters: u64,
    /// Whether no two trips (in the engine's scope) may share both ends exactly.
    pub deduplicate_pairs: bool,
    /// How many pairs are drawn for one trip, at most, before giving up; also how many points are
    /// drawn in a zone's bounding box for one point inside it.
    pub max_attempts: u64,
}

/// Everything the engine is configured with.
pub struct Options {
    /// How to pick points from origin zones
    pub subsample_origin: Subsample,
    /// How to pick points from destination zones
    pub subsample_destination: Subsample,
    /// Which column in the OD row specifies the zone where trips originate?
    pub origin_key: String,
    /// Which column in the OD row specifies the zone where trips end?
    pub destination_key: String,
    pub rules: Rules,
}

/// One emitted trip: its two ends, and the distance between them that was tested.
#[derive(Clone, Copy, Debug)]
pub struct Trip {
    pub origin: Coord,
    pub destination: Coord,
    pub distance_meters: u64,
}

pub open spec fn trip_key(t: Trip) -> (u128, u128) {
    pair_key(t.origin, t.destination)
}

/// The pairs of a sequence of trips.
pub open spec fn trip_keys(v: Seq<Trip>) -> Set<(u128, u128)> {
    Set::new(|p: (u128, u128)| exists|i: int| 0 <= i < v.len() && trip_key(v[i]) == p)
}

/// Every trip is far enough, and each end came from where its subsampler draws.
pub open spec fn trips_meet(
    v: Seq<Trip>,
    rules: Rules,
    origin: Subsampler,
    origin_pools: Option<Pools>,
    destination: Subsampler,
    destination_pools: Option<Pools>,
) -> bool {
    forall|i: int|
        0 <= i < v.len() ==> at_least((#[trigger] v[i]).distance_meters, rules.min_distance_meters)
            && origin.yields(origin_pools, v[i].origin) && destination.yields(
            destination_pools,
            v[i].destination,
        )
}

/// The trips' pairs are new (not in `before`), differ from one another, and `after` is `before`
/// with them added.
pub open spec fn fresh_pairs(v: Seq<Trip>, before: Set<(u128, u128)>, after: Set<(u128, u128)>) -> bool {
    &&& forall|i: int| 0 <= i < v.len() ==> !before.contains(trip_key(#[trigger] v[i]))
    &&& forall|i: int, j: int|
        0 <= i < v.len() && 0 <= j < v.len() && i != j ==> trip_key(#[trigger] v[i]) != trip_key(
            #[trigger] v[j],
        )
    &&& after == before.union(trip_keys(v))
}

/// What holds of the trips drawn, and of the set of pairs seen, after trips were drawn under
/// `rules`.
pub open spec fn drawn_well(
    v: Seq<Trip>,
    rules: Rules,
    origin: Subsampler,
    origin_pools: Option<Pools>,
    destination: Subsampler,
    destination_pools: Option<Pools>,
    before: Set<(u128, u128)>,
    after: Set<(u128, u128)>,
) -> bool {
    &&& trips_meet(v, rules, origin, origin_pools, destination, destination_pools)
    &&& rules.deduplicate_pairs ==> fresh_pairs(v, before, after)
    &&& !rules.deduplicate_pairs ==> after == before
}

/// Asking for `count` distinct pairs from two finite pools that cannot make that many.
pub open spec fn infeasible(rules: Rules, origin: Subsampler, destination: Subsampler, count: nat) -> bool {
    rules.deduplicate_pairs && origin.capacity() is Some && destination.capacity() is Some && count
        > origin.capacity().unwrap() * destination.capacity().unwrap()
}

pub fn check_feasible(rules: &Rules, origin: &Subsampler, destination: &Subsampler, count: u64) -> (r:
    Result<(), JitterError>)
    ensures
        r is Ok <==> !infeasible(*rules, *origin, *destination, count as nat),
        r is Err ==> r.unwrap_err() == (JitterError::InfeasibleUniqueness {
            requested: count,
            origin_points: origin.capacity().unwrap() as usize,
            destination_points: destination.capacity().unwrap() as usize,
        }),
{
    if rules.deduplicate_pairs {
        match (origin.num_points(), destination.num_points()) {
            (Some(a), Some(b)) => {
                assert((a as u128) * (b as u128) <= 0xffff_ffff_ffff_ffff_ffff_ffff_ffff_ffffu128)
                    by (nonlinear_arith)
                    requires
                        a <= 0xffff_ffff_ffff_ffffu64,
                        b <= 0xffff_ffff_ffff_ffffu64,
                ;
                if (count as u128) > (a as u128) * (b as u128) {
                    return Err(
                        JitterError::InfeasibleUniqueness {
                            requested: count,
                            origin_points: a,
                            destination_points: b,
                        },
                    );
                }
            },
            _ => {},
        }
    }
    Ok(())
}

/// Whether a drawn pair is kept: its distance is at least the minimum and, when pairs must be
/// unique, it has not been seen.
pub fn accept_pair(origin: &Coord, destination: &Coord, distance: u64, rules: &Rules, seen: &PairSet) -> (r:
    bool)
    ensures
        r == (at_least(distance, rules.min_distance_meters) && (rules.deduplicate_pairs
            ==> !seen.view().contains(pair_key(*origin, *destination)))),
{
    far_enough(distance, rules.min_distance_meters) && (!rules.deduplicate_pairs || !seen.contains(
        origin,
        destination,
    ))
}

/// Draws one trip: pairs of points until one is kept by `accept_pair`, for at most
/// `rules.max_attempts` pairs. Records the pair as seen when pairs must be unique.
pub fn draw_trip<D: Draws>(
    origin: &Subsampler,
    origin_pools: &Option<Pools>,
    destination: &Subsampler,
    destination_pools: &Option<Pools>,
    rules: &Rules,
    seen: &mut PairSet,
    draws: &mut D,
) -> (r: Option<Trip>)
    requires
        origin.fits(*origin_pools),
        destination.fits(*destination_pools),
    ensures
        r is None ==> final(seen).view() == old(seen).view(),
        r is Some ==> {
            let t = r.unwrap();
            &&& at_least(t.distance_meters, rules.min_distance_meters)
            &&& origin.yields(*origin_pools, t.origin)
            &&& destination.yields(*destination_pools, t.destination)
            &&& rules.deduplicate_pairs ==> !old(seen).view().contains(trip_key(t))
                && final(seen).view() == old(seen).view().insert(trip_key(t))
            &&& !rules.deduplicate_pairs ==> final(seen).view() == old(seen).view()
        },
{
    let mut attempts: u64 = 0;
    while attempts < rules.max_attempts
        invariant
            origin.fits(*origin_pools),
            destination.fits(*destination_pools),
            seen.view() == old(seen).view(),
        decreases rules.max_attempts - attempts,
    {
        attempts = attempts + 1;
        let o = match origin.sample(origin_pools, draws, rules.max_attempts) {
            Some(o) => o,
            None => {
                continue;
            },
        };
        let d = match destination.sample(destination_pools, draws, rules.max_attempts) {
            Some(d) => d,
            None => {
                continue;
            },
        };
        let distance = draws.distance_meters(o, d);
        if accept_pair(&o, &d, distance, rules, seen) {
            if rules.deduplicate_pairs {
                seen.insert(&o, &d);
            }
            return Some(Trip { origin: o, destination: d, distance_meters: distance });
        }
    }
    None
}

/// Draws `count` trips, each as `draw_trip` does. Fails with `SamplingExhausted` as soon as one
/// trip finds no acceptable pair; the pairs of the trips drawn before stay seen.
pub fn draw_trips<D: Draws>(
    origin: &Subsampler,
    origin_pools: &Option<Pools>,
    destination: &Subsampler,
    destination_pools: &Option<Pools>,
    count: u64,
    rules: &Rules,
    seen: &mut PairSet,
    draws: &mut D,
) -> (r: Result<Vec<Trip>, JitterError>)
    requires
        origin.fits(*origin_pools),
        destination.fits(*destination_pools),
    ensures
        count == 0 ==> r is Ok && final(seen).view() == old(seen).view() && *final(draws)
            == *old(draws),
        r is Err ==> r.unwrap_err() == (JitterError::SamplingExhausted {
            attempts: rules.max_attempts,
        }) && old(seen).view().subset_of(final(seen).view()),
        r is Ok ==> r.unwrap()@.len() == count && drawn_well(
            r.unwrap()@,
            *rules,
            *origin,
            *origin_pools,
            *destination,
            *destination_pools,
            old(seen).view(),
            final(seen).view(),
        ),
{
    let mut trips: Vec<Trip> = Vec::new();
    let mut made: u64 = 0;
    assert(trip_keys(trips@) =~= Set::<(u128, u128)>::empty());
    assert(seen.view().union(trip_keys(trips@)) =~= seen.view());
    if count == 0 {
        return Ok(trips);
    }
    while made < count
        invariant
            origin.fits(*origin_pools),
            destination.fits(*destination_pools),
            made <= count,
            trips@.len() == made,
            drawn_well(
                trips@,
                *rules,
                *origin,
                *origin_pools,
                *destination,
                *destination_pools,
                old(seen).view(),
                seen.view(),
            ),
        decreases count - made,
    {
        let ghost before = trips@;
        let ghost seen_before = seen.view();
        match draw_trip(origin, origin_pools, destination, destination_pools, rules, seen, draws) {
            Some(t) => {
                trips.push(t);
                proof {
                    let v = trips@;
                    assert(v.drop_last() == before);
                    assert(trip_keys(v) =~= trip_keys(before).insert(trip_key(t))) by {
                        assert forall|p: (u128, u128)| trip_keys(v).contains(p) implies trip_keys(
                            before,
                        ).insert(trip_key(t)).contains(p) by {
                            let i = choose|i: int| 0 <= i < v.len() && trip_key(v[i]) == p;
                            if i < before.len() {
                                assert(trip_key(before[i]) == p);
                            }
                        }
                        assert forall|p: (u128, u128)| trip_keys(before).insert(
                            trip_key(t),
                        ).contains(p) implies trip_keys(v).contains(p) by {
                            if p == trip_key(t) {
                                assert(trip_key(v[before.len() as int]) == p);
                            } else {
                                let i = choose|i: int|
                                    0 <= i < before.len() && trip_key(before[i]) == p;
                                assert(trip_key(v[i]) == p);
                            }
                        }
                    }
                    if rules.deduplicate_pairs {
                        assert(seen.view() =~= old(seen).view().union(trip_keys(v)));
                        assert forall|i: int, j: int|
                            0 <= i < v.len() && 0 <= j < v.len() && i != j implies trip_key(
                                #[trigger] v[i],
                            ) != trip_key(#[trigger] v[j]) by {
                            if i < before.len() && j < before.len() {
                                assert(v[i] == before[i] && v[j] == before[j]);
                            } else if i < before.len() {
                                assert(seen_before.contains(trip_key(before[i])));
                            } else {
                                assert(seen_before.contains(trip_key(before[j])));
                            }
                        }
                    }
                }
            },
            None => {
                return Err(JitterError::SamplingExhausted { attempts: rules.max_attempts });
            },
        }
        made = made + 1;
    }
    Ok(trips)
}

/// Zone `i` is the first one named `id`.
pub open spec fn is_first_zone(zones: Seq<String>, id: Seq<char>, i: int) -> bool {
    0 <= i < zones.len() && zones[i]@ == id && forall|j: int|
        0 <= j < i ==> (#[trigger] zones[j])@ != id
}

pub open spec fn has_zone(zones: Seq<String>, id: Seq<char>) -> bool {
    exists|i: int| 0 <= i < zones.len() && (#[trigger] zones[i])@ == id
}

/// The number of the first zone named `id`, if any.
pub open spec fn zone_of(zones: Seq<String>, id: Seq<char>) -> Option<int> {
    if has_zone(zones, id) {
        Some(choose|i: int| is_first_zone(zones, id, i))
    } else {
        None
    }
}

/// The number of the zone named `id`.
pub fn find_zone(zones: &Vec<String>, id: &String) -> (r: Option<usize>)
    ensures
        r is Some <==> zone_of(zones@, id@) is Some,
        r is Some ==> zone_of(zones@, id@) == Some(r.unwrap() as int) && r.unwrap() < zones@.len(),
{
    let mut i: usize = 0;
    while i < zones.len()
        invariant
            i <= zones@.len(),
            forall|j: int| 0 <= j < i ==> (#[trigger] zones@[j])@ != id@,
        decreases zones@.len() - i,
    {
        if zones[i] == *id {
            proof {
                let k = choose|k: int| is_first_zone(zones@, id@, k);
                assert(is_first_zone(zones@, id@, i as int));
                if k < i {
                    assert(zones@[k]@ != id@);
                } else if k > i {
                    assert(zones@[i as int]@ != id@);
                }
            }
            return Some(i);
        }
        i = i + 1;
    }
    None
}

/// The subsampler of zone `zone` (named `id`): weighted points from its pool when there are
/// pools, failing with `NoCandidatePoints` when the pool is empty; else random points in its
/// shape, failing with `DegenerateGeometry` when it has no bounding box.
pub open spec fn subsampler_for(pools: Option<Pools>, bounded: Seq<bool>, zone: int, id: String) -> Result<
    Subsampler,
    JitterError,
> {
    match pools {
        Some(p) => if p@[zone]@.len() > 0 {
            Ok(Subsampler::WeightedPoints { zone: zone as usize, count: p@[zone]@.len() as usize })
        } else {
            Err(JitterError::NoCandidatePoints { zone: id })
        },
        None => if bounded[zone] {
            Ok(Subsampler::RandomPoints { zone: zone as usize })
        } else {
            Err(JitterError::DegenerateGeometry { zone: id })
        },
    }
}

impl Subsampler {
    pub fn new(pools: &Option<Pools>, bounded: &Vec<bool>, zone: usize, zone_id: &String) -> (r:
        Result<Subsampler, JitterError>)
        requires
            zone < bounded@.len(),
            pools is Some ==> pools.unwrap()@.len() == bounded@.len(),
        ensures
            r == subsampler_for(*pools, bounded@, zone as int, *zone_id),
            r is Ok ==> r.unwrap().fits(*pools),
    {
        match pools {
            Some(p) => {
                if p[zone].len() > 0 {
                    Ok(Subsampler::WeightedPoints { zone, count: p[zone].len() })
                } else {
                    Err(JitterError::NoCandidatePoints { zone: zone_id.clone() })
                }
            },
            None => {
                if bounded[zone] {
                    Ok(Subsampler::RandomPoints { zone })
                } else {
                    Err(JitterError::DegenerateGeometry { zone: zone_id.clone() })
                }
            },
        }
    }
}

/// The demand of a row: the number in column `key`. Fails with `MissingOrNonNumericColumn` when
/// there is no such column or it does not hold a number, with `OutOfRange` when the number does
/// not fit a `Quantity`, and with `NegativeDemand` when it is below zero.
pub open spec fn demand_of(row: Seq<(String, String)>, key: String) -> Result<Quantity, JitterError> {
    match cell(row, key@) {
        None => Err(JitterError::MissingOrNonNumericColumn { column: key }),
        Some(text) => match reading_of(text@) {
            Reading::Text => Err(JitterError::MissingOrNonNumericColumn { column: key }),
            Reading::OutOfRange => Err(JitterError::OutOfRange { column: key }),
            Reading::Exact(q) => if is_demand(q) {
                Ok(q)
            } else {
                Err(JitterError::NegativeDemand { column: key })
            },
        },
    }
}

pub fn read_demand(row: &Row, key: &String) -> (r: Result<Quantity, JitterError>)
    ensures
        r == demand_of(row@, *key),
        r is Ok ==> is_demand(r.unwrap()),
{
    match get_cell(row, key) {
        None => Err(JitterError::MissingOrNonNumericColumn { column: key.clone() }),
        Some(text) => match read_number(text.as_str()) {
            Reading::Text => Err(JitterError::MissingOrNonNumericColumn { column: key.clone() }),
            Reading::OutOfRange => Err(JitterError::OutOfRange { column: key.clone() }),
            Reading::Exact(q) => {
                if !q.negative || q.digits == 0 {
                    Ok(q)
                } else {
                    Err(JitterError::NegativeDemand { column: key.clone() })
                }
            },
        },
    }
}

/// The trips made from one row, and the properties that each of them carries.
pub struct RowTrips {
    pub properties: Vec<(String, Property)>,
    pub trips: Vec<Trip>,
}

/// The trips of one mode column of a row; each carries the property `mode` = `mode`.
pub struct ModeTrips {
    pub mode: String,
    pub trips: Vec<Trip>,
}

/// All trips of a row's modes, in order.
pub open spec fn all_trips(v: Seq<ModeTrips>) -> Seq<Trip>
    decreases v.len(),
{
    if v.len() == 0 {
        Seq::empty()
    } else {
        all_trips(v.drop_last()) + v.last().trips@
    }
}

/// No two trips share both ends.
pub open spec fn distinct_pairs(v: Seq<Trip>) -> bool {
    forall|i: int, j: int|
        0 <= i < v.len() && 0 <= j < v.len() && i != j ==> trip_key(#[trigger] v[i]) != trip_key(
            #[trigger] v[j],
        )
}

/// The zone registry and the configuration that rows are disaggregated with.
pub struct Jitter {
    /// Zone names, by zone number.
    pub zones: Vec<String>,
    /// Whether each zone's shape has a bounding box, by zone number.
    pub bounded: Vec<bool>,
    /// Candidate points of each zone for origins, when origins are drawn from weighted points.
    pub origin_pools: Option<Pools>,
    /// Candidate points of each zone for destinations, likewise.
    pub destination_pools: Option<Pools>,
    pub origin_key: String,
    pub destination_key: String,
    pub rules: Rules,
}

impl Jitter {
    pub open spec fn wf(&self) -> bool {
        &&& self.bounded@.len() == self.zones@.len()
        &&& self.origin_pools is Some ==> self.origin_pools.unwrap()@.len() == self.zones@.len()
        &&& self.destination_pools is Some ==> self.destination_pools.unwrap()@.len()
            == self.zones@.len()
    }

    /// Sets up the engine over a zone registry. `inside_origin[z]` (and `inside_destination[z]`)
    /// are the indices of the weighted points of `options` that lie strictly inside zone `z`;
    /// they are read only for weighted sampling.
    pub fn new(
        zones: Vec<String>,
        bounded: Vec<bool>,
        options: Options,
        inside_origin: &Vec<Vec<usize>>,
        inside_destination: &Vec<Vec<usize>>,
    ) -> (r: Jitter)
        requires
            bounded@.len() == zones@.len(),
            options.subsample_origin is WeightedPoints ==> inside_origin@.len() == zones@.len(),
            options.subsample_destination is WeightedPoints ==> inside_destination@.len()
                == zones@.len(),
        ensures
            r.wf(),
            r.zones == zones,
            r.bounded == bounded,
            r.origin_key == options.origin_key,
            r.destination_key == options.destination_key,
            r.rules == options.rules,
            match options.subsample_origin {
                Subsample::RandomPoints => r.origin_pools is None,
                Subsample::WeightedPoints(points) => r.origin_pools is Some && forall|z: int|
                    0 <= z < zones@.len() ==> (#[trigger] r.origin_pools.unwrap()@[z])@ == pool_of(
                        points@,
                        inside_origin@[z]@,
                    ),
            },
            match options.subsample_destination {
                Subsample::RandomPoints => r.destination_pools is None,
                Subsample::WeightedPoints(points) => r.destination_pools is Some && forall|z: int|
                    0 <= z < zones@.len() ==> (#[trigger] r.destination_pools.unwrap()@[z])@
                        == pool_of(points@, inside_destination@[z]@),
            },
    {
        let origin_pools = match &options.subsample_origin {
            Subsample::RandomPoints => None,
            Subsample::WeightedPoints(points) => Some(points_per_zone(points, inside_origin)),
        };
        let destination_pools = match &options.subsample_destination {
            Subsample::RandomPoints => None,
            Subsample::WeightedPoints(points) => Some(points_per_zone(points, inside_destination)),
        };
        Jitter {
            zones,
            bounded,
            origin_pools,
            destination_pools,
            origin_key: options.origin_key,
            destination_key: options.destination_key,
            rules: options.rules,
        }
    }

    /// The subsamplers of a row's origin and destination. Fails with
    /// `MissingOrNonNumericColumn` when the row has no origin (or destination) column, with
    /// `UnknownZone` when it names a zone the registry does not hold, and as `subsampler_for`
    /// says.
    pub open spec fn endpoints(&self, row: Seq<(String, String)>) -> Result<
        (Subsampler, Subsampler),
        JitterError,
    > {
        match cell(row, self.origin_key@) {
            None => Err(JitterError::MissingOrNonNumericColumn { column: self.origin_key }),
            Some(oid) => match cell(row, self.destination_key@) {
                None => Err(JitterError::MissingOrNonNumericColumn { column: self.destination_key }),
                Some(did) => match zone_of(self.zones@, oid@) {
                    None => Err(JitterError::UnknownZone { zone: oid }),
                    Some(oz) => match zone_of(self.zones@, did@) {
                        None => Err(JitterError::UnknownZone { zone: did }),
                        Some(dz) => match subsampler_for(
                            self.origin_pools,
                            self.bounded@,
                            oz,
                            oid,
                        ) {
                            Err(e) => Err(e),
                            Ok(os) => match subsampler_for(
                                self.destination_pools,
                                self.bounded@,
                                dz,
                                did,
                            ) {
                                Err(e) => Err(e),
                                Ok(ds) => Ok((os, ds)),
                            },
                        },
                    },
                },
            },
        }
    }

    pub fn row_endpoints(&self, row: &Row) -> (r: Result<(Subsampler, Subsampler), JitterError>)
        requires
            self.wf(),
        ensures
            r == self.endpoints(row@),
            r is Ok ==> r.unwrap().0.fits(self.origin_pools) && r.unwrap().1.fits(
                self.destination_pools,
            ),
    {
        let origin_id = match get_cell(row, &self.origin_key) {
            Some(id) => id,
            None => {
                return Err(
                    JitterError::MissingOrNonNumericColumn { column: self.origin_key.clone() },
                );
            },
        };
        let destination_id = match get_cell(row, &self.destination_key) {
            Some(id) => id,
            None => {
                return Err(
                    JitterError::MissingOrNonNumericColumn { column: self.destination_key.clone() },
                );
            },
        };
        let origin_zone = match find_zone(&self.zones, origin_id) {
            Some(z) => z,
            None => {
                return Err(JitterError::UnknownZone { zone: origin_id.clone() });
            },
        };
        let destination_zone = match find_zone(&self.zones, destination_id) {
            Some(z) => z,
            None => {
                return Err(JitterError::UnknownZone { zone: destination_id.clone() });
            },
        };
        let origin = match Subsampler::new(
            &self.origin_pools,
            &self.bounded,
            origin_zone,
            origin_id,
        ) {
            Ok(s) => s,
            Err(e) => {
                return Err(e);
            },
        };
        let destination = match Subsampler::new(
            &self.destination_pools,
            &self.bounded,
            destination_zone,
            destination_id,
        ) {
            Ok(s) => s,
            Err(e) => {
                return Err(e);
            },
        };
        Ok((origin, destination))
    }

    /// What a row needs before any point is drawn: how many trips, and the two subsamplers.
    /// Fails as `demand_of` and `endpoints` say, and with `InfeasibleUniqueness` when the trips
    /// must have distinct pairs that the two pools cannot make.
    pub open spec fn row_plan(&self, row: Seq<(String, String)>, key: String, threshold: nat) -> Result<
        (u64, Subsampler, Subsampler),
        JitterError,
    > {
        match demand_of(row, key) {
            Err(e) => Err(e),
            Ok(q) => {
                let repeat = repeat_of(q, threshold) as u64;
                match self.endpoints(row) {
                    Err(e) => Err(e),
                    Ok((os, ds)) => if infeasible(self.rules, os, ds, repeat as nat) {
                        Err(
                            JitterError::InfeasibleUniqueness {
                                requested: repeat,
                                origin_points: os.capacity().unwrap() as usize,
                                destination_points: ds.capacity().unwrap() as usize,
                            },
                        )
                    } else {
                        Ok((repeat, os, ds))
                    },
                }
            },
        }
    }

    /// Disaggregates one row into `repeat_of(demand, threshold)` trips (one for a demand of
    /// zero), each carrying the row's cells with every number but the origin and destination
    /// divided by that count. `seen` holds the pairs emitted so far in the deduplication scope:
    /// pass one set for the whole run to keep pairs unique across rows.
    ///
    /// Fails, before drawing any point and leaving `draws` and `seen` as they were, exactly as
    /// `row_plan` says; after that, only with `SamplingExhausted`.
    pub fn jitter_row<D: Draws>(
        &self,
        row: &Row,
        disaggregation_key: &String,
        threshold: u64,
        seen: &mut PairSet,
        draws: &mut D,
    ) -> (r: Result<RowTrips, JitterError>)
        requires
            self.wf(),
            threshold > 0,
        ensures
            ({
                let plan = self.row_plan(row@, *disaggregation_key, threshold as nat);
                match r {
                    Ok(rt) => {
                        let (repeat, os, ds) = plan.unwrap();
                        &&& plan is Ok
                        &&& rt.trips@.len() == repeat
                        &&& drawn_well(
                            rt.trips@,
                            self.rules,
                            os,
                            self.origin_pools,
                            ds,
                            self.destination_pools,
                            old(seen).view(),
                            final(seen).view(),
                        )
                        &&& rt.properties@.len() == row@.len()
                        &&& forall|i: int|
                            0 <= i < row@.len() ==> (#[trigger] rt.properties@[i]).0 == row@[i].0
                                && rt.properties@[i].1 == rescaled(
                                row@[i].0@,
                                row@[i].1,
                                self.origin_key@,
                                self.destination_key@,
                                repeat,
                            )
                    },
                    Err(e) => (plan is Err && e == plan.unwrap_err() && *final(draws) == *old(draws)
                        && final(seen).view() == old(seen).view()) || (plan is Ok && e
                        == JitterError::SamplingExhausted { attempts: self.rules.max_attempts }
                        && old(seen).view().subset_of(final(seen).view())),
                }
            }),
            r is Ok && demand_of(row@, *disaggregation_key).unwrap().is_zero() ==> r.unwrap().trips@.len()
                == 1,
    {
        let demand = match read_demand(row, disaggregation_key) {
            Ok(q) => q,
            Err(e) => {
                return Err(e);
            },
        };
        let repeat = repeat_count(&demand, threshold);
        let (origin, destination) = match self.row_endpoints(row) {
            Ok(pair) => pair,
            Err(e) => {
                return Err(e);
            },
        };
        match check_feasible(&self.rules, &origin, &destination, repeat) {
            Ok(()) => {},
            Err(e) => {
                return Err(e);
            },
        }
        let properties = rescale_row(row, &self.origin_key, &self.destination_key, repeat);
        let trips = match draw_trips(
            &origin,
            &self.origin_pools,
            &destination,
            &self.destination_pools,
            repeat,
            &self.rules,
            seen,
            draws,
        ) {
            Ok(trips) => trips,
            Err(e) => {
                return Err(e);
            },
        };
        Ok(RowTrips { properties, trips })
    }

    /// Fully disaggregates one row: for each mode column (every column but the origin and
    /// destination that holds a number), as many trips as the column's count of whole trips,
    /// each tagged with the column's name. Pairs are kept unique within the row when the rules
    /// ask for it.
    ///
    /// Fails, before drawing any point and leaving `draws` as it was, exactly as `endpoints` and
    /// then `mode_problem` say; after that, only with `SamplingExhausted`.
    pub fn disaggregate_row<D: Draws>(&self, row: &Row, draws: &mut D) -> (r: Result<
        Vec<ModeTrips>,
        JitterError,
    >)
        requires
            self.wf(),
        ensures
            ({
                let ends = self.endpoints(row@);
                let modes = mode_columns(row@, self.origin_key@, self.destination_key@);
                let (os, ds) = ends.unwrap();
                let problem = mode_problem(modes, self.rules, os, ds);
                match r {
                    Ok(v) => {
                        &&& ends is Ok
                        &&& problem is None
                        &&& v@.len() == modes.len()
                        &&& forall|i: int|
                            0 <= i < v@.len() ==> (#[trigger] v@[i]).mode == modes[i].0
                                && modes[i].1 == Some(v@[i].trips@.len()) && trips_meet(
                                v@[i].trips@,
                                self.rules,
                                os,
                                self.origin_pools,
                                ds,
                                self.destination_pools,
                            )
                        &&& self.rules.deduplicate_pairs ==> distinct_pairs(all_trips(v@))
                    },
                    Err(e) => (ends is Err && e == ends.unwrap_err() && *final(draws) == *old(draws))
                        || (ends is Ok && problem is Some && e == problem.unwrap() && *final(draws)
                        == *old(draws)) || (ends is Ok && problem is None && e
                        == JitterError::SamplingExhausted { attempts: self.rules.max_attempts }),
                }
            }),
            ({
                let ends = self.endpoints(row@);
                let modes = mode_columns(row@, self.origin_key@, self.destination_key@);
                (ends is Ok && mode_problem(modes, self.rules, ends.unwrap().0, ends.unwrap().1)
                    is None && forall|i: int| 0 <= i < modes.len() ==> #[trigger] modes[i].1 == Some(
                    0nat,
                )) ==> r is Ok
            }),
    {
        let (origin, destination) = match self.row_endpoints(row) {
            Ok(pair) => pair,
            Err(e) => {
                return Err(e);
            },
        };
        let modes = mode_counts(row, &self.origin_key, &self.destination_key);
        let ghost spec_modes = mode_columns(row@, self.origin_key@, self.destination_key@);
        assert(modes_view(modes@) =~= spec_modes);
        match check_modes(&modes, &self.rules, &origin, &destination) {
            Ok(()) => {},
            Err(e) => {
                return Err(e);
            },
        }
        proof {
            lemma_no_mode_problem(spec_modes, self.rules, origin, destination);
        }
        let mut seen = PairSet::new();
        let mut out: Vec<ModeTrips> = Vec::new();
        let mut m: usize = 0;
        while m < modes.len()
            invariant
                self.wf(),
                origin.fits(self.origin_pools),
                destination.fits(self.destination_pools),
                self.endpoints(row@) == Ok::<(Subsampler, Subsampler), JitterError>((origin, destination)),
                spec_modes == mode_columns(row@, self.origin_key@, self.destination_key@),
                spec_modes == modes_view(modes@),
                mode_problem(spec_modes, self.rules, origin, destination) is None,
                forall|i: int|
                    0 <= i < spec_modes.len() ==> mode_check(#[trigger] spec_modes[i], self.rules, origin, destination) is None,
                m <= modes@.len(),
                out@.len() == m,
                forall|i: int|
                    0 <= i < m ==> (#[trigger] out@[i]).mode == spec_modes[i].0
                        && spec_modes[i].1 == Some(out@[i].trips@.len()) && trips_meet(
                        out@[i].trips@,
                        self.rules,
                        origin,
                        self.origin_pools,
                        destination,
                        self.destination_pools,
                    ),
                self.rules.deduplicate_pairs ==> distinct_pairs(all_trips(out@))
                    && seen.view() == trip_keys(all_trips(out@)),
                (forall|i: int| 0 <= i < spec_modes.len() ==> #[trigger] spec_modes[i].1 == Some(0nat))
                    ==> seen.view() == Set::<(u128, u128)>::empty(),
            decreases modes@.len() - m,
        {
            assert(mode_check(spec_modes[m as int], self.rules, origin, destination) is None);
            let count = match modes[m].1 {
                Some(c) => c,
                None => {
                    return Err(JitterError::OutOfRange { column: modes[m].0.clone() });
                },
            };
            let ghost seen_before = seen.view();
            let ghost out_before = out@;
            let trips = match draw_trips(
                &origin,
                &self.origin_pools,
                &destination,
                &self.destination_pools,
                count,
                &self.rules,
                &mut seen,
                draws,
            ) {
                Ok(trips) => trips,
                Err(e) => {
                    return Err(e);
                },
            };
            let ghost new_trips = trips@;
            out.push(ModeTrips { mode: modes[m].0.clone(), trips });
            proof {
                assert(out@.drop_last() == out_before);
                assert(all_trips(out@) == all_trips(out_before) + new_trips);
                if self.rules.deduplicate_pairs {
                    lemma_concat_distinct(all_trips(out_before), new_trips, seen_before);
                }
            }
            m = m + 1;
        }
        Ok(out)
    }
}

/// The mode columns as `mode_columns` gives them, from what `mode_counts` returns.
pub open spec fn modes_view(modes: Seq<(String, Option<u64>)>) -> Seq<(String, Option<nat>)> {
    modes.map_values(|m: (String, Option<u64>)| (m.0, count_of(m.1)))
}

/// Why one mode column cannot be drawn: its count does not fit a `Quantity`, or the pools cannot
/// make that many distinct pairs.
pub open spec fn mode_check(
    mode: (String, Option<nat>),
    rules: Rules,
    origin: Subsampler,
    destination: Subsampler,
) -> Option<JitterError> {
    match mode.1 {
        None => Some(JitterError::OutOfRange { column: mode.0 }),
        Some(c) => if infeasible(rules, origin, destination, c) {
            Some(
                JitterError::InfeasibleUniqueness {
                    requested: c as u64,
                    origin_points: origin.capacity().unwrap() as usize,
                    destination_points: destination.capacity().unwrap() as usize,
                },
            )
        } else {
            None
        },
    }
}

/// The first mode column, in order, that cannot be drawn, as `mode_check` says.
pub open spec fn mode_problem(
    modes: Seq<(String, Option<nat>)>,
    rules: Rules,
    origin: Subsampler,
    destination: Subsampler,
) -> Option<JitterError>
    decreases modes.len(),
{
    if modes.len() == 0 {
        None
    } else {
        match mode_problem(modes.drop_last(), rules, origin, destination) {
            Some(e) => Some(e),
            None => mode_check(modes.last(), rules, origin, destination),
        }
    }
}

proof fn lemma_no_mode_problem(
    modes: Seq<(String, Option<nat>)>,
    rules: Rules,
    origin: Subsampler,
    destination: Subsampler,
)
    requires
        mode_problem(modes, rules, origin, destination) is None,
    ensures
        forall|i: int|
            0 <= i < modes.len() ==> mode_check(#[trigger] modes[i], rules, origin, destination) is None,
    decreases modes.len(),
{
    if modes.len() > 0 {
        let init = modes.drop_last();
        lemma_no_mode_problem(init, rules, origin, destination);
        assert forall|i: int|
            0 <= i < modes.len() implies mode_check(#[trigger] modes[i], rules, origin, destination) is None by {
            if i < init.len() {
                assert(modes[i] == init[i]);
            }
        }
    }
}

/// Checks every mode column before any point is drawn: `mode_problem` as an executable function.
pub fn check_modes(
    modes: &Vec<(String, Option<u64>)>,
    rules: &Rules,
    origin: &Subsampler,
    destination: &Subsampler,
) -> (r: Result<(), JitterError>)
    ensures
        ({
            let problem = mode_problem(modes_view(modes@), *rules, *origin, *destination);
            &&& r is Ok <==> problem is None
            &&& r is Err ==> r.unwrap_err() == problem.unwrap()
        }),
{
    let ghost all = modes_view(modes@);
    let mut i: usize = 0;
    assert(all.subrange(0, 0) =~= Seq::<(String, Option<nat>)>::empty());
    while i < modes.len()
        invariant
            i <= modes@.len(),
            all == modes_view(modes@),
            mode_problem(all.subrange(0, i as int), *rules, *origin, *destination) is None,
        decreases modes@.len() - i,
    {
        let ghost next = all.subrange(0, i + 1);
        assert(next.drop_last() =~= all.subrange(0, i as int));
        assert(next.last() == all[i as int]);
        match modes[i].1 {
            None => {
                proof {
                    lemma_problem_stays(all, (i + 1) as int, *rules, *origin, *destination);
                }
                return Err(JitterError::OutOfRange { column: modes[i].0.clone() });
            },
            Some(c) => {
                match check_feasible(rules, origin, destination, c) {
                    Ok(()) => {},
                    Err(e) => {
                        proof {
                            lemma_problem_stays(all, (i + 1) as int, *rules, *origin, *destination);
                        }
                        return Err(e);
                    },
                }
            },
        }
        i = i + 1;
    }
    assert(all.subrange(0, modes@.len() as int) =~= all);
    Ok(())
}

/// Once a prefix of the modes has a problem, the whole has the same one.
proof fn lemma_problem_stays(
    modes: Seq<(String, Option<nat>)>,
    j: int,
    rules: Rules,
    origin: Subsampler,
    destination: Subsampler,
)
    requires
        0 <= j <= modes.len(),
        mode_problem(modes.subrange(0, j), rules, origin, destination) is Some,
    ensures
        mode_problem(modes, rules, origin, destination) == mode_problem(
            modes.subrange(0, j),
            rules,
            origin,
            destination,
        ),
    decreases modes.len() - j,
{
    if j < modes.len() {
        assert(modes.subrange(0, j + 1).drop_last() =~= modes.subrange(0, j));
        lemma_problem_stays(modes, j + 1, rules, origin, destination);
    } else {
        assert(modes.subrange(0, j) =~= modes);
    }
}

/// What `lemma_conservation` adds up is what `jitter_row` emits: when a row's demand reads, its
/// demand cell becomes, in each of its `repeat_of(demand, threshold)` trips, a share of the cell's
/// number that is `share_of(demand, threshold)` (unless the demand column is also the origin or
/// destination column, which stays text).
pub proof fn lemma_demand_cell_share(
    jitter: Jitter,
    row: Seq<(String, String)>,
    key: String,
    threshold: nat,
    i: int,
)
    requires
        threshold > 0,
        demand_of(row, key) is Ok,
        is_first_column(row, key@, i),
        key@ != jitter.origin_key@,
        key@ != jitter.destination_key@,
    ensures
        ({
            let q = demand_of(row, key).unwrap();
            let parts = repeat_of(q, threshold) as u64;
            &&& rescaled(row[i].0@, row[i].1, jitter.origin_key@, jitter.destination_key@, parts)
                == Property::Number(Share { text: row[i].1, parts })
            &&& same_ratio(Share { text: row[i].1, parts }.value(), share_of(q, threshold))
        }),
{
    lemma_first_column_unique(row, key@, i);
    let q = demand_of(row, key).unwrap();
    let text = row[i].1@;
    lemma_exact_value(text);
    crate::quantity::lemma_repeat_fits(q, threshold);
    let r = repeat_of(q, threshold);
    let a = q.value();
    let t = text_value(text);
    assert(same_ratio((t.0, t.1 * r), (a.0, a.1 * r))) by (nonlinear_arith)
        requires
            a.0 * t.1 == t.0 * a.1,
    ;
}

/// Two different trips of a sequence with `distinct_pairs` never share both ends: they differ in
/// their origin point or in their destination point, comparing coordinates exactly.
pub proof fn lemma_distinct_pairs_differ(v: Seq<Trip>, i: int, j: int)
    requires
        distinct_pairs(v),
        0 <= i < v.len(),
        0 <= j < v.len(),
        i != j,
    ensures
        !(v[i].origin.same_point(v[j].origin) && v[i].destination.same_point(v[j].destination)),
{
    lemma_key_exact(v[i].origin, v[j].origin);
    lemma_key_exact(v[i].destination, v[j].destination);
    assert(trip_key(v[i]) != trip_key(v[j]));
}

/// Appending fresh, distinct trips to distinct trips keeps them distinct, and the keys add up.
proof fn lemma_concat_distinct(a: Seq<Trip>, b: Seq<Trip>, seen: Set<(u128, u128)>)
    requires
        distinct_pairs(a),
        seen == trip_keys(a),
        fresh_pairs(b, seen, seen.union(trip_keys(b))),
    ensures
        distinct_pairs(a + b),
        trip_keys(a + b) == seen.union(trip_keys(b)),
{
    let c = a + b;
    assert forall|i: int, j: int|
        0 <= i < c.len() && 0 <= j < c.len() && i != j implies trip_key(#[trigger] c[i]) != trip_key(
            #[trigger] c[j],
        ) by {
        if i < a.len() && j < a.len() {
            assert(c[i] == a[i] && c[j] == a[j]);
        } else if i < a.len() {
            assert(c[j] == b[j - a.len()]);
            assert(trip_keys(a).contains(trip_key(a[i])));
        } else if j < a.len() {
            assert(c[i] == b[i - a.len()]);
            assert(trip_keys(a).contains(trip_key(a[j])));
        } else {
            assert(c[i] == b[i - a.len()] && c[j] == b[j - a.len()]);
        }
    }
    assert forall|p: (u128, u128)| trip_keys(c).contains(p) implies seen.union(
        trip_keys(b),
    ).contains(p) by {
        let i = choose|i: int| 0 <= i < c.len() && trip_key(c[i]) == p;
        if i < a.len() {
            assert(c[i] == a[i]);
        } else {
            assert(c[i] == b[i - a.len()]);
        }
    }
    assert forall|p: (u128, u128)| seen.union(trip_keys(b)).contains(p) implies trip_keys(
        c,
    ).contains(p) by {
        if trip_keys(a).contains(p) {
            let i = choose|i: int| 0 <= i < a.len() && trip_key(a[i]) == p;
            assert(c[i] == a[i]);
        } else {
            let i = choose|i: int| 0 <= i < b.len() && trip_key(b[i]) == p;
            assert(c[i + a.len()] == b[i]);
        }
    }
    assert(trip_keys(c) =~= seen.union(trip_keys(b)));
}

} // verus!
