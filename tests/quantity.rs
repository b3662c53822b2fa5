use odjitter::engine::find_zone;
use odjitter::point::{far_enough, Coord, PairSet, WeightedPoint};
use odjitter::quantity::{read_number, repeat_count, Quantity, Reading};
use odjitter::row::{find_column, get_cell, mode_counts, rescale_row, Property};
use odjitter::sampler::{points_per_zone, zone_pool};

fn q(s: &str) -> Quantity {
    match read_number(s) {
        Reading::Exact(q) => q,
        other => panic!("{} should read exactly, got {:?}", s, other),
    }
}

fn is_text(s: &str) -> bool {
    matches!(read_number(s), Reading::Text)
}

fn out_of_range(s: &str) -> bool {
    matches!(read_number(s), Reading::OutOfRange)
}

fn value(q: &Quantity) -> f64 {
    let v = q.digits as f64 / 10f64.powi(q.scale as i32);
    if q.negative {
        -v
    } else {
        v
    }
}

fn row(cells: &[(&str, &str)]) -> Vec<(String, String)> {
    cells.iter().map(|(k, v)| (k.to_string(), v.to_string())).collect()
}

#[test]
fn parse_plain_decimals() {
    let a = q("25");
    assert_eq!((a.negative, a.digits, a.scale), (false, 25, 0));
    let b = q("-0.50");
    assert_eq!((b.negative, b.digits, b.scale), (true, 50, 2));
    let c = q(".5");
    assert_eq!((c.negative, c.digits, c.scale), (false, 5, 1));
    let d = q("+3.");
    assert_eq!((d.negative, d.digits, d.scale), (false, 3, 0));
    let e = q("007");
    assert_eq!((e.digits, e.scale), (7, 0));
}

#[test]
fn parse_rejects_non_decimal_text() {
    for s in ["", "-", ".", "+.", "e5", "1e", "1e+", "1e5.0", "1e5e1", "abc", "1.2.3", "inf", "NaN", " 1", "1,5", "--1"] {
        assert!(is_text(s), "{} should not be a number", s);
    }
}

#[test]
fn parse_range_limits() {
    assert_eq!(q("18446744073709551615").digits, u64::MAX);
    assert!(out_of_range("18446744073709551616"));
    assert_eq!(q("0.123456789012345678").scale, 18);
    assert!(out_of_range("0.1234567890123456789"));
    assert!(out_of_range("1e20"));
    assert!(out_of_range("1e-19"));
    assert!(out_of_range("1e100000000000000000000000000000000000000"));
    let zero = q("0.0000000000000000000000e-900");
    assert_eq!(zero.digits, 0);
}

#[test]
fn exponent_notation_reads_exactly() {
    let a = q("1e5");
    assert_eq!((a.negative, a.digits, a.scale), (false, 100000, 0));
    let b = q("2.5E-3");
    assert_eq!((b.negative, b.digits, b.scale), (false, 25, 4));
    let c = q("1e+05");
    assert_eq!((c.digits, c.scale), (100000, 0));
    let d = q("-12.5e1");
    assert_eq!((d.negative, d.digits, d.scale), (true, 125, 0));
    let e = q("2.5e1");
    assert_eq!(repeat_count(&e, 10), 3);
    let f = q("18446744073709551615e0");
    assert_eq!(f.digits, u64::MAX);
    let g = q("1.8446744073709551615e19");
    assert_eq!(g.digits, u64::MAX);
}

#[test]
fn repeat_is_ceiling_of_demand_over_threshold() {
    assert_eq!(repeat_count(&q("25"), 10), 3);
    assert_eq!(repeat_count(&q("20"), 5), 4);
    assert_eq!(repeat_count(&q("0.5"), 10), 1);
    assert_eq!(repeat_count(&q("100"), 1), 100);
    assert_eq!(repeat_count(&q("100.01"), 1), 101);
    assert_eq!(repeat_count(&q("25"), 1_000_000), 1);
}

#[test]
fn zero_demand_gives_one_trip() {
    assert_eq!(repeat_count(&q("0"), 10), 1);
    assert_eq!(repeat_count(&q("-0.0"), 10), 1);
    assert_eq!(repeat_count(&q("0.000"), 1), 1);
}

#[test]
fn rescaled_cells_sum_back_to_the_row() {
    let r = row(&[("geo_code1", "007"), ("geo_code2", "12"), ("all", "25"), ("foot", "7"), ("note", "x")]);
    let repeat = repeat_count(&q("25"), 10);
    let props = rescale_row(&r, &"geo_code1".to_string(), &"geo_code2".to_string(), repeat);
    assert_eq!(props.len(), 5);
    match &props[0].1 {
        Property::Text(t) => assert_eq!(t, "007"),
        other => panic!("origin should stay text: {:?}", other),
    }
    match &props[1].1 {
        Property::Text(t) => assert_eq!(t, "12"),
        other => panic!("destination should stay text: {:?}", other),
    }
    match &props[2].1 {
        Property::Number(share) => {
            assert_eq!(share.parts, 3);
            assert_eq!(share.text, "25");
            let each = share.text.parse::<f64>().unwrap() / share.parts as f64;
            assert!((each - 8.333333).abs() < 1e-3);
            assert!((each * 3.0 - 25.0).abs() < 1e-9);
        }
        other => panic!("all should be a number: {:?}", other),
    }
    match &props[4].1 {
        Property::Text(t) => assert_eq!(t, "x"),
        other => panic!("note should stay text: {:?}", other),
    }
}

#[test]
fn totals_do_not_depend_on_threshold() {
    let demands = ["25", "0", "3.5", "100", "7"];
    let total: f64 = demands.iter().map(|d| value(&q(d))).sum();
    for threshold in [1u64, 10, 50, 100, 1000] {
        let mut sum = 0.0;
        for d in demands {
            let amount = q(d);
            let repeat = repeat_count(&amount, threshold);
            sum += (value(&amount) / repeat as f64) * repeat as f64;
        }
        assert!((sum - total).abs() < 1e-6, "threshold {}: {} vs {}", threshold, sum, total);
    }
}

#[test]
fn mode_counts_take_whole_trips() {
    let r = row(&[
        ("geo_code1", "1"),
        ("geo_code2", "2"),
        ("car", "2"),
        ("foot", "3.7"),
        ("name", "x"),
        ("bus", "-4"),
        ("bicycle", "1e2"),
        ("train", "1e30"),
    ]);
    let modes = mode_counts(&r, &"geo_code1".to_string(), &"geo_code2".to_string());
    assert_eq!(
        modes,
        vec![
            ("car".to_string(), Some(2)),
            ("foot".to_string(), Some(3)),
            ("bus".to_string(), Some(0)),
            ("bicycle".to_string(), Some(100)),
            ("train".to_string(), None)
        ]
    );
}

fn bits(x: f64) -> u64 {
    x.to_bits()
}

#[test]
fn distance_test_follows_double_order() {
    assert!(far_enough(bits(1.0), bits(1.0)));
    assert!(far_enough(bits(1.5), bits(1.0)));
    assert!(!far_enough(bits(0.5), bits(1.0)));
    assert!(far_enough(bits(0.0), bits(-0.0)));
    assert!(far_enough(bits(-0.0), bits(0.0)));
    assert!(!far_enough(bits(f64::NAN), bits(0.0)));
    assert!(far_enough(bits(f64::INFINITY), bits(1e9)));
    assert!(!far_enough(bits(1e-300), bits(1e-299)));
    assert!(far_enough(bits(0.5), bits(-1.0)));
    assert!(!far_enough(bits(-2.0), bits(-1.0)));
    assert!(far_enough(bits(-1.0), bits(-2.0)));
    assert!(!far_enough(bits(5.0), bits(f64::NAN)));
}

#[test]
fn pair_set_compares_numbers_not_signs_of_zero() {
    let mut seen = PairSet::new();
    let a = Coord { x: bits(0.0), y: bits(1.0) };
    let b = Coord { x: bits(2.0), y: bits(3.0) };
    assert!(!seen.contains(&a, &b));
    seen.insert(&a, &b);
    assert!(seen.contains(&a, &b));
    let a_neg = Coord { x: bits(-0.0), y: bits(1.0) };
    assert!(seen.contains(&a_neg, &b));
    assert!(!seen.contains(&b, &a));
}

#[test]
fn pools_keep_positive_weights_in_order() {
    let p = |x: f64, w: f64| WeightedPoint { point: Coord { x: bits(x), y: bits(0.0) }, weight: bits(w) };
    let points = vec![p(1.0, 1.0), p(2.0, 0.0), p(3.0, -1.0), p(4.0, 2.5), p(5.0, f64::NAN), p(6.0, f64::INFINITY)];
    let pool = zone_pool(&points, &vec![3, 0, 1, 2, 4, 5, 99]);
    let xs: Vec<f64> = pool.iter().map(|w| f64::from_bits(w.point.x)).collect();
    assert_eq!(xs, vec![4.0, 1.0]);
    let pools = points_per_zone(&points, &vec![vec![0], vec![], vec![0, 3]]);
    assert_eq!(pools.len(), 3);
    assert_eq!(pools[0].len(), 1);
    assert!(pools[1].is_empty());
    assert_eq!(pools[2].len(), 2);
}

#[test]
fn first_column_of_a_name_is_used() {
    let r = row(&[("a", "1"), ("b", "2"), ("a", "3")]);
    assert_eq!(find_column(&r, &"a".to_string()), Some(0));
    assert_eq!(get_cell(&r, &"b".to_string()).map(|s| s.as_str()), Some("2"));
    assert_eq!(find_column(&r, &"c".to_string()), None);
}

#[test]
fn zones_are_found_by_exact_name() {
    let zones = vec!["E02000001".to_string(), "007".to_string(), "7".to_string()];
    assert_eq!(find_zone(&zones, &"7".to_string()), Some(2));
    assert_eq!(find_zone(&zones, &"007".to_string()), Some(1));
    assert_eq!(find_zone(&zones, &"07".to_string()), None);
}
