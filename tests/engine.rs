use std::collections::HashSet;

use odjitter::engine::{accept_pair, Jitter, JitterError, Options, Rules};
use odjitter::point::{Coord, PairSet, WeightedPoint};
use odjitter::row::Property;
use odjitter::sampler::{keep_inside, pick, Draws, Subsample};

fn bits(x: f64) -> u64 {
    x.to_bits()
}

fn pt(x: f64, y: f64) -> Coord {
    Coord { x: bits(x), y: bits(y) }
}

fn xy(c: &Coord) -> (f64, f64) {
    (f64::from_bits(c.x), f64::from_bits(c.y))
}

/// Answers from fixed lists, in turn: points in a zone's box, weighted picks, and a plane
/// distance of one metre per unit.
struct Script {
    points: Vec<Coord>,
    next_point: usize,
    inside: bool,
    picks: Vec<usize>,
    next_pick: usize,
    state: u64,
}

impl Script {
    fn new(points: Vec<Coord>, picks: Vec<usize>) -> Script {
        Script { points, next_point: 0, inside: true, picks, next_pick: 0, state: 42 }
    }
}

impl Draws for Script {
    fn point_in_bounds(&mut self, _zone: usize) -> Coord {
        let p = self.points[self.next_point % self.points.len()];
        self.next_point += 1;
        p
    }

    fn zone_contains(&mut self, _zone: usize, _point: Coord) -> bool {
        self.inside
    }

    fn weighted_index(&mut self, pool: &Vec<WeightedPoint>) -> usize {
        if self.picks.is_empty() {
            self.state ^= self.state << 13;
            self.state ^= self.state >> 7;
            self.state ^= self.state << 17;
            return (self.state % pool.len() as u64) as usize;
        }
        let i = self.picks[self.next_pick % self.picks.len()] % pool.len();
        self.next_pick += 1;
        i
    }

    fn distance_meters(&mut self, from: Coord, to: Coord) -> u64 {
        let (a, b) = (xy(&from), xy(&to));
        ((a.0 - b.0).hypot(a.1 - b.1)).to_bits()
    }
}

/// Fails the test if the engine draws anything.
struct NoDraws;

impl Draws for NoDraws {
    fn point_in_bounds(&mut self, _zone: usize) -> Coord {
        panic!("no point should be drawn")
    }
    fn zone_contains(&mut self, _zone: usize, _point: Coord) -> bool {
        panic!("no point should be drawn")
    }
    fn weighted_index(&mut self, _pool: &Vec<WeightedPoint>) -> usize {
        panic!("no point should be drawn")
    }
    fn distance_meters(&mut self, _from: Coord, _to: Coord) -> u64 {
        panic!("no point should be drawn")
    }
}

fn rules(min: f64, dedup: bool) -> Rules {
    Rules { min_distance_meters: bits(min), deduplicate_pairs: dedup, max_attempts: 1000 }
}

fn s(x: &str) -> String {
    x.to_string()
}

fn row(cells: &[(&str, &str)]) -> Vec<(String, String)> {
    cells.iter().map(|(k, v)| (k.to_string(), v.to_string())).collect()
}

fn zones() -> Vec<String> {
    vec![s("A"), s("B"), s("007"), s("flat")]
}

fn random_engine(rules: Rules) -> Jitter {
    let options = Options {
        subsample_origin: Subsample::RandomPoints,
        subsample_destination: Subsample::RandomPoints,
        origin_key: s("origin"),
        destination_key: s("destination"),
        rules,
    };
    Jitter::new(zones(), vec![true, true, true, false], options, &vec![], &vec![])
}

fn weighted(xs: &[f64]) -> Vec<WeightedPoint> {
    xs.iter().map(|x| WeightedPoint { point: pt(*x, 0.0), weight: bits(1.0) }).collect()
}

/// Zone A holds origin points 0..n_origin; zone B holds destination points 100..100+n_dest.
fn weighted_engine(n_origin: usize, n_dest: usize, rules: Rules) -> Jitter {
    let origins: Vec<f64> = (0..n_origin).map(|i| i as f64).collect();
    let dests: Vec<f64> = (0..n_dest).map(|i| 100.0 + i as f64).collect();
    let options = Options {
        subsample_origin: Subsample::WeightedPoints(weighted(&origins)),
        subsample_destination: Subsample::WeightedPoints(weighted(&dests)),
        origin_key: s("origin"),
        destination_key: s("destination"),
        rules,
    };
    let inside_o = vec![(0..n_origin).collect(), vec![], vec![], vec![]];
    let inside_d = vec![vec![], (0..n_dest).collect(), vec![], vec![]];
    Jitter::new(zones(), vec![true, true, true, false], options, &inside_o, &inside_d)
}

fn share_value(p: &Property) -> f64 {
    match p {
        Property::Number(share) => {
            share.text.parse::<f64>().unwrap() / share.parts as f64
        }
        Property::Text(t) => panic!("expected a number, got {}", t),
    }
}

fn spread_points() -> Vec<Coord> {
    (0..40).map(|i| pt((i * 7 % 40) as f64, (i * 3 % 11) as f64)).collect()
}

#[test]
fn demand_of_25_with_threshold_10_gives_three_trips() {
    let engine = random_engine(rules(1.0, false));
    let mut seen = PairSet::new();
    let mut draws = Script::new(spread_points(), vec![0]);
    let r = row(&[("origin", "A"), ("destination", "B"), ("all", "25")]);
    let out = engine.jitter_row(&r, &s("all"), 10, &mut seen, &mut draws).unwrap();
    assert_eq!(out.trips.len(), 3);
    let all = &out.properties[2];
    assert_eq!(all.0, "all");
    assert!((share_value(&all.1) - 8.333).abs() < 1e-3);
    assert!((share_value(&all.1) * 3.0 - 25.0).abs() < 1e-9);
}

#[test]
fn zero_demand_row_gives_one_trip_with_zero() {
    let engine = random_engine(rules(1.0, false));
    let mut seen = PairSet::new();
    let mut draws = Script::new(spread_points(), vec![0]);
    let r = row(&[("origin", "A"), ("destination", "B"), ("all", "0")]);
    let out = engine.jitter_row(&r, &s("all"), 10, &mut seen, &mut draws).unwrap();
    assert_eq!(out.trips.len(), 1);
    assert_eq!(share_value(&out.properties[2].1), 0.0);
}

#[test]
fn infeasible_uniqueness_fails_before_sampling() {
    let engine = weighted_engine(2, 2, rules(1.0, true));
    let mut seen = PairSet::new();
    let r = row(&[("origin", "A"), ("destination", "B"), ("all", "5")]);
    match engine.jitter_row(&r, &s("all"), 1, &mut seen, &mut NoDraws) {
        Err(JitterError::InfeasibleUniqueness { requested, origin_points, destination_points }) => {
            assert_eq!((requested, origin_points, destination_points), (5, 2, 2));
        }
        other => panic!("expected InfeasibleUniqueness, got {:?}", other.err()),
    }
}

#[test]
fn unique_pairs_use_every_combination_once() {
    let engine = weighted_engine(3, 3, rules(1.0, true));
    let mut seen = PairSet::new();
    let mut draws = Script::new(vec![pt(0.0, 0.0)], vec![]);
    let r = row(&[("origin", "A"), ("destination", "B"), ("all", "9")]);
    let out = engine.jitter_row(&r, &s("all"), 1, &mut seen, &mut draws).unwrap();
    assert_eq!(out.trips.len(), 9);
    let pairs: HashSet<(u64, u64, u64, u64)> = out
        .trips
        .iter()
        .map(|t| (t.origin.x, t.origin.y, t.destination.x, t.destination.y))
        .collect();
    assert_eq!(pairs.len(), 9);
}

#[test]
fn duplicates_allowed_without_deduplication() {
    let engine = weighted_engine(1, 1, rules(1.0, false));
    let mut seen = PairSet::new();
    let mut draws = Script::new(vec![pt(0.0, 0.0)], vec![0]);
    let r = row(&[("origin", "A"), ("destination", "B"), ("all", "4")]);
    let out = engine.jitter_row(&r, &s("all"), 1, &mut seen, &mut draws).unwrap();
    assert_eq!(out.trips.len(), 4);
    assert!(out.trips.iter().all(|t| t.origin.x == out.trips[0].origin.x));
}

#[test]
fn unique_pairs_hold_across_rows_with_one_seen_set() {
    let engine = weighted_engine(2, 2, rules(1.0, true));
    let mut seen = PairSet::new();
    let mut draws = Script::new(vec![pt(0.0, 0.0)], vec![]);
    let r = row(&[("origin", "A"), ("destination", "B"), ("all", "2")]);
    let first = engine.jitter_row(&r, &s("all"), 1, &mut seen, &mut draws).unwrap();
    let second = engine.jitter_row(&r, &s("all"), 1, &mut seen, &mut draws).unwrap();
    let pairs: HashSet<(u64, u64)> = first
        .trips
        .iter()
        .chain(second.trips.iter())
        .map(|t| (t.origin.x, t.destination.x))
        .collect();
    assert_eq!(pairs.len(), 4);
}

#[test]
fn every_trip_is_at_least_the_minimum_distance() {
    let engine = random_engine(rules(10.0, false));
    let mut seen = PairSet::new();
    let mut draws = Script::new(spread_points(), vec![0]);
    let r = row(&[("origin", "A"), ("destination", "B"), ("all", "50")]);
    let out = engine.jitter_row(&r, &s("all"), 1, &mut seen, &mut draws).unwrap();
    assert_eq!(out.trips.len(), 50);
    for t in &out.trips {
        let (a, b) = (xy(&t.origin), xy(&t.destination));
        let d = (a.0 - b.0).hypot(a.1 - b.1);
        assert!(d >= 10.0, "pair {:?} {:?} only {} apart", a, b, d);
        assert_eq!(f64::from_bits(t.distance_meters), d);
    }
}

#[test]
fn weighted_trips_end_at_pool_points() {
    let engine = weighted_engine(4, 3, rules(1.0, false));
    let mut seen = PairSet::new();
    let mut draws = Script::new(vec![pt(0.0, 0.0)], vec![3, 1, 2, 0, 1]);
    let r = row(&[("origin", "A"), ("destination", "B"), ("all", "12")]);
    let out = engine.jitter_row(&r, &s("all"), 1, &mut seen, &mut draws).unwrap();
    for t in &out.trips {
        let (ox, _) = xy(&t.origin);
        let (dx, _) = xy(&t.destination);
        assert!([0.0, 1.0, 2.0, 3.0].contains(&ox));
        assert!([100.0, 101.0, 102.0].contains(&dx));
    }
}

#[test]
fn same_draws_give_same_trips() {
    let run = || {
        let engine = random_engine(rules(5.0, true));
        let mut seen = PairSet::new();
        let mut draws = Script::new(spread_points(), vec![0]);
        let r = row(&[("origin", "A"), ("destination", "007"), ("all", "12")]);
        let out = engine.jitter_row(&r, &s("all"), 2, &mut seen, &mut draws).unwrap();
        out.trips.iter().map(|t| (t.origin.x, t.origin.y, t.destination.x, t.destination.y)).collect::<Vec<_>>()
    };
    assert_eq!(run(), run());
}

#[test]
fn numeric_looking_zone_names_are_kept_verbatim() {
    let engine = random_engine(rules(1.0, false));
    let mut seen = PairSet::new();
    let mut draws = Script::new(spread_points(), vec![0]);
    let ok = row(&[("origin", "007"), ("destination", "A"), ("all", "1")]);
    let out = engine.jitter_row(&ok, &s("all"), 10, &mut seen, &mut draws).unwrap();
    match &out.properties[0].1 {
        Property::Text(t) => assert_eq!(t, "007"),
        other => panic!("origin should stay text: {:?}", other),
    }
    let bad = row(&[("origin", "7"), ("destination", "A"), ("all", "1")]);
    match engine.jitter_row(&bad, &s("all"), 10, &mut seen, &mut draws) {
        Err(JitterError::UnknownZone { zone }) => assert_eq!(zone, "7"),
        other => panic!("expected UnknownZone, got {:?}", other.err()),
    }
}

#[test]
fn row_errors_name_the_column_or_zone() {
    let engine = random_engine(rules(1.0, false));
    let mut seen = PairSet::new();
    let cases: Vec<(Vec<(String, String)>, &str)> = vec![
        (row(&[("origin", "A"), ("destination", "B")]), "missing all"),
        (row(&[("origin", "A"), ("destination", "B"), ("all", "many")]), "non-numeric all"),
        (row(&[("origin", "A"), ("destination", "B"), ("all", "-3")]), "negative all"),
        (row(&[("destination", "B"), ("all", "3")]), "missing origin"),
        (row(&[("origin", "A"), ("all", "3")]), "missing destination"),
        (row(&[("origin", "A"), ("destination", "Z"), ("all", "3")]), "unknown destination"),
        (row(&[("origin", "flat"), ("destination", "B"), ("all", "3")]), "degenerate origin"),
    ];
    let mut got = Vec::new();
    for (r, _what) in &cases {
        got.push(match engine.jitter_row(r, &s("all"), 10, &mut seen, &mut NoDraws) {
            Err(JitterError::MissingOrNonNumericColumn { column }) => format!("column {}", column),
            Err(JitterError::NegativeDemand { column }) => format!("negative {}", column),
            Err(JitterError::UnknownZone { zone }) => format!("zone {}", zone),
            Err(JitterError::DegenerateGeometry { zone }) => format!("degenerate {}", zone),
            other => format!("{:?}", other.err()),
        });
    }
    assert_eq!(
        got,
        vec![
            "column all",
            "column all",
            "negative all",
            "column origin",
            "column destination",
            "zone Z",
            "degenerate flat"
        ]
    );
}

#[test]
fn empty_pool_is_no_candidate_points() {
    let engine = weighted_engine(2, 2, rules(1.0, false));
    let mut seen = PairSet::new();
    let r = row(&[("origin", "007"), ("destination", "B"), ("all", "3")]);
    match engine.jitter_row(&r, &s("all"), 10, &mut seen, &mut NoDraws) {
        Err(JitterError::NoCandidatePoints { zone }) => assert_eq!(zone, "007"),
        other => panic!("expected NoCandidatePoints, got {:?}", other.err()),
    }
}

#[test]
fn impossible_distance_is_sampling_exhausted() {
    let mut r = rules(1000.0, false);
    r.max_attempts = 20;
    let engine = random_engine(r);
    let mut seen = PairSet::new();
    let mut draws = Script::new(spread_points(), vec![0]);
    let input = row(&[("origin", "A"), ("destination", "B"), ("all", "1")]);
    match engine.jitter_row(&input, &s("all"), 10, &mut seen, &mut draws) {
        Err(JitterError::SamplingExhausted { attempts }) => assert_eq!(attempts, 20),
        other => panic!("expected SamplingExhausted, got {:?}", other.err()),
    }
}

#[test]
fn points_outside_the_zone_are_never_used() {
    let engine = random_engine(rules(0.0, false));
    let mut seen = PairSet::new();
    let mut draws = Script::new(spread_points(), vec![0]);
    draws.inside = false;
    let input = row(&[("origin", "A"), ("destination", "B"), ("all", "1")]);
    assert!(matches!(
        engine.jitter_row(&input, &s("all"), 10, &mut seen, &mut draws),
        Err(JitterError::SamplingExhausted { .. })
    ));
}

#[test]
fn full_disaggregation_tags_each_trip_with_its_mode() {
    let engine = random_engine(rules(1.0, false));
    let mut draws = Script::new(spread_points(), vec![0]);
    let r = row(&[("origin", "A"), ("destination", "B"), ("car_driver", "2"), ("foot", "3.7"), ("label", "x")]);
    let out = engine.disaggregate_row(&r, &mut draws).unwrap();
    let summary: Vec<(String, usize)> = out.iter().map(|m| (m.mode.clone(), m.trips.len())).collect();
    assert_eq!(summary, vec![(s("car_driver"), 2), (s("foot"), 3)]);
}

#[test]
fn full_disaggregation_checks_each_mode_for_feasibility() {
    let engine = weighted_engine(2, 2, rules(1.0, true));
    let mut draws = Script::new(vec![pt(0.0, 0.0)], vec![]);
    let fits = row(&[("origin", "A"), ("destination", "B"), ("car", "4")]);
    let out = engine.disaggregate_row(&fits, &mut draws).unwrap();
    assert_eq!(out[0].trips.len(), 4);
    let too_many = row(&[("origin", "A"), ("destination", "B"), ("car", "5")]);
    assert!(matches!(
        engine.disaggregate_row(&too_many, &mut NoDraws),
        Err(JitterError::InfeasibleUniqueness { requested: 5, .. })
    ));
}

#[test]
fn exponent_cells_are_numbers() {
    let engine = random_engine(rules(1.0, false));
    let mut seen = PairSet::new();
    let mut draws = Script::new(spread_points(), vec![0]);
    let r = row(&[("origin", "A"), ("destination", "B"), ("all", "2.5e1"), ("bus", "1e5"), ("note", "e5")]);
    let out = engine.jitter_row(&r, &s("all"), 10, &mut seen, &mut draws).unwrap();
    assert_eq!(out.trips.len(), 3);
    assert!((share_value(&out.properties[3].1) - 100000.0 / 3.0).abs() < 1e-6);
    assert!(matches!(&out.properties[4].1, Property::Text(t) if t == "e5"));
}

#[test]
fn exponent_mode_counts_make_trips() {
    let engine = random_engine(rules(1.0, false));
    let mut draws = Script::new(spread_points(), vec![0]);
    let r = row(&[("origin", "A"), ("destination", "B"), ("bicycle", "1e2")]);
    let out = engine.disaggregate_row(&r, &mut draws).unwrap();
    assert_eq!(out.len(), 1);
    assert_eq!(out[0].trips.len(), 100);
}

#[test]
fn numbers_too_large_to_split_are_out_of_range() {
    let engine = random_engine(rules(1.0, false));
    let mut seen = PairSet::new();
    let r = row(&[("origin", "A"), ("destination", "B"), ("all", "1e40")]);
    assert!(matches!(
        engine.jitter_row(&r, &s("all"), 10, &mut seen, &mut NoDraws),
        Err(JitterError::OutOfRange { column }) if column == "all"
    ));
    let modes = row(&[("origin", "A"), ("destination", "B"), ("car", "1"), ("ship", "1e40")]);
    assert!(matches!(
        engine.disaggregate_row(&modes, &mut NoDraws),
        Err(JitterError::OutOfRange { column }) if column == "ship"
    ));
}

#[test]
fn every_mode_is_checked_before_any_drawing() {
    let mut r = rules(1.0, true);
    r.max_attempts = 3;
    let engine = weighted_engine(2, 2, r);
    let input = row(&[("origin", "A"), ("destination", "B"), ("car", "1"), ("foot", "5")]);
    match engine.disaggregate_row(&input, &mut NoDraws) {
        Err(JitterError::InfeasibleUniqueness { requested, .. }) => assert_eq!(requested, 5),
        other => panic!("expected InfeasibleUniqueness, got {:?}", other.err()),
    }
}

#[test]
fn zero_counts_need_no_draws() {
    let engine = random_engine(rules(1.0, false));
    let r = row(&[("origin", "A"), ("destination", "B"), ("car", "0"), ("foot", "0.4")]);
    let out = engine.disaggregate_row(&r, &mut NoDraws).unwrap();
    assert_eq!(out.len(), 2);
    assert!(out.iter().all(|m| m.trips.is_empty()));
}

#[test]
fn drawn_answers_are_judged_exactly() {
    let mut seen = PairSet::new();
    let (a, b) = (pt(0.0, 0.0), pt(3.0, 4.0));
    let unique = rules(5.0, true);
    assert!(accept_pair(&a, &b, bits(5.0), &unique, &seen));
    assert!(!accept_pair(&a, &b, bits(4.9), &unique, &seen));
    seen.insert(&a, &b);
    assert!(!accept_pair(&a, &b, bits(5.0), &unique, &seen));
    assert!(accept_pair(&a, &b, bits(5.0), &rules(5.0, false), &seen));
    let pool = vec![WeightedPoint { point: b, weight: bits(1.0) }];
    assert_eq!(pick(&pool, 0).map(|c| xy(&c)), Some((3.0, 4.0)));
    assert!(pick(&pool, 1).is_none());
    assert_eq!(keep_inside(a, true).map(|c| xy(&c)), Some((0.0, 0.0)));
    assert!(keep_inside(a, false).is_none());
}
