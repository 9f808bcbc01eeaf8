use weather_stats::aggregate::aggregate;
use weather_stats::fixed_point::{is_parsable_measurement, parse_measurement};
use weather_stats::partition::partition_into_slices;
use weather_stats::scanner::{is_well_formed, thread_runner};
use weather_stats::station::WeatherStation;
use weather_stats::table::{bytes_equal, StationTable};

fn min_display(ws: &WeatherStation) -> f32 {
    ws.min_tenths() as f32 / 10.0
}

fn max_display(ws: &WeatherStation) -> f32 {
    ws.max_tenths() as f32 / 10.0
}

fn mean_display(ws: &WeatherStation) -> f64 {
    ws.sum_tenths() as f64 / ws.count() as f64 / 10.0
}

#[test]
fn test_weather_station() {
    let mut ws = WeatherStation::new();
    ws.add_measurement(100);
    ws.add_measurement(50);
    ws.add_measurement(150);
    assert_eq!(min_display(&ws), 5.0);
    assert_eq!(max_display(&ws), 15.0);
    assert_eq!(mean_display(&ws), 10.0);
}

#[test]
fn test_weather_station_merge() {
    let mut ws1 = WeatherStation::new();
    ws1.add_measurement(100);
    ws1.add_measurement(50);
    ws1.add_measurement(150);
    let mut ws2 = WeatherStation::new();
    ws2.add_measurement(200);
    ws2.add_measurement(250);
    ws2.add_measurement(300);
    ws1.merge(&ws2);
    assert_eq!(min_display(&ws1), 5.0);
    assert_eq!(max_display(&ws1), 30.0);
    assert_eq!(mean_display(&ws1), 17.5);
}

#[test]
fn test_parse_measurement_with_decimal() {
    let measurement = b"123.4";
    assert_eq!(parse_measurement(measurement), 1234);
}

#[test]
fn test_parse_measurement_negative_with_decimal() {
    let measurement = b"-123.4";
    assert_eq!(parse_measurement(measurement), -1234);
}

#[test]
fn parse_zero_and_small_values() {
    assert_eq!(parse_measurement(b"0.0"), 0);
    assert_eq!(parse_measurement(b"23.0"), 230);
    assert_eq!(parse_measurement(b"-0.7"), -7);
    assert_eq!(parse_measurement(b"999.9"), 9999);
    assert_eq!(parse_measurement(b"3276.7"), 32767);
}

#[test]
fn new_station_holds_sentinels() {
    let ws = WeatherStation::new();
    assert_eq!(ws.min_tenths(), i16::MAX);
    assert_eq!(ws.max_tenths(), i16::MIN);
    assert_eq!(ws.sum_tenths(), 0);
    assert_eq!(ws.count(), 0);
}

#[test]
fn mean_lies_between_extremes() {
    let mut ws = WeatherStation::new();
    for v in [-53i16, 17, 250, -4, 0, 99] {
        ws.add_measurement(v);
    }
    assert_eq!(ws.min_tenths(), -53);
    assert_eq!(ws.max_tenths(), 250);
    assert_eq!(ws.sum_tenths(), 309);
    assert_eq!(ws.count(), 6);
    let mean = mean_display(&ws);
    assert!(min_display(&ws) as f64 <= mean && mean <= max_display(&ws) as f64);
}

#[test]
fn merge_is_commutative_on_values() {
    let mut a = WeatherStation::new();
    a.add_measurement(12);
    a.add_measurement(-40);
    let mut b = WeatherStation::new();
    b.add_measurement(300);
    let mut ab = a;
    ab.merge(&b);
    let mut ba = b;
    ba.merge(&a);
    assert_eq!((ab.min_tenths(), ab.max_tenths(), ab.sum_tenths(), ab.count()), (-40, 300, 272, 3));
    assert_eq!((ba.min_tenths(), ba.max_tenths(), ba.sum_tenths(), ba.count()), (-40, 300, 272, 3));
}

#[test]
fn merge_matches_single_feed() {
    let xs = [5i16, -10, 70];
    let ys = [33i16, -2];
    let zs = [100i16];
    let feed = |vals: &[i16]| {
        let mut w = WeatherStation::new();
        for v in vals {
            w.add_measurement(*v);
        }
        w
    };
    let (a, b, c) = (feed(&xs), feed(&ys), feed(&zs));
    let mut left = a;
    left.merge(&b);
    left.merge(&c);
    let mut bc = b;
    bc.merge(&c);
    let mut right = a;
    right.merge(&bc);
    let all = feed(&[33, 100, 5, -2, -10, 70]);
    for w in [left, right] {
        assert_eq!(w.min_tenths(), all.min_tenths());
        assert_eq!(w.max_tenths(), all.max_tenths());
        assert_eq!(w.sum_tenths(), all.sum_tenths());
        assert_eq!(w.count(), all.count());
    }
    assert_eq!((all.min_tenths(), all.max_tenths(), all.sum_tenths(), all.count()), (-10, 100, 196, 6));
}

#[test]
fn merge_with_empty_keeps_values() {
    let mut a = WeatherStation::new();
    a.add_measurement(42);
    let e = WeatherStation::new();
    a.merge(&e);
    assert_eq!((a.min_tenths(), a.max_tenths(), a.sum_tenths(), a.count()), (42, 42, 42, 1));
}

#[test]
fn partitions_rebuild_the_data() {
    let data: &[u8] = b"aa;1.0\nb;2.5\ncccc;-3.0\nd;4.0\ne;5.5\n";
    for n in 1..10usize {
        let parts = partition_into_slices(data, n);
        assert_eq!(parts.len(), n);
        let joined: Vec<u8> = parts.iter().flat_map(|p| p.iter().copied()).collect();
        assert_eq!(joined, data.to_vec());
        for p in &parts[..n - 1] {
            assert!(p.is_empty() || *p.last().unwrap() == b'\n');
        }
    }
}

#[test]
fn partitions_exact_boundaries() {
    let data: &[u8] = b"a;1.0\nb;2.0\nc;3.0\nd;4.0";
    let parts = partition_into_slices(data, 2);
    assert_eq!(parts[0], b"a;1.0\nb;2.0\n");
    assert_eq!(parts[1], b"c;3.0\nd;4.0");
}

#[test]
fn partitions_last_takes_remainder() {
    let data: &[u8] = b"a;1.0\nb;2.0\nc;3.0\nd;4.0\ne;5.0\n";
    let parts = partition_into_slices(data, 4);
    assert_eq!(parts[0], b"a;1.0\nb;2.0\n");
    assert_eq!(parts[1], b"c;3.0\nd;4.0\n");
    assert_eq!(parts[2], b"e;5.0\n");
    assert_eq!(parts[3], b"");
}

#[test]
fn partitions_of_empty_data() {
    let parts = partition_into_slices(b"", 3);
    assert_eq!(parts.len(), 3);
    assert!(parts.iter().all(|p| p.is_empty()));
}

fn fields(t: &StationTable, name: &[u8]) -> (i16, i16, i64, u32) {
    let s = t.get(name).unwrap();
    (s.min_tenths(), s.max_tenths(), s.sum_tenths(), s.count())
}

#[test]
fn scanner_counts_each_station() {
    let t = thread_runner(b"A;10.0\nB;20.5\nA;30.0\n");
    assert_eq!(t.len(), 2);
    assert_eq!(fields(&t, b"A"), (100, 300, 400, 2));
    assert_eq!(fields(&t, b"B"), (205, 205, 205, 1));
    assert!(t.get(b"C").is_none());
    assert_eq!(t.entries[0].0, b"A");
    assert_eq!(t.entries[1].0, b"B");
}

#[test]
fn scanner_without_trailing_newline() {
    let t = thread_runner(b"Oslo;-1.5\nOslo;2.5");
    assert_eq!(t.len(), 1);
    assert_eq!(fields(&t, b"Oslo"), (-15, 25, 10, 2));
}

#[test]
fn scanner_on_empty_data() {
    let t = thread_runner(b"");
    assert_eq!(t.len(), 0);
}

#[test]
fn end_to_end_single_worker() {
    let t = aggregate(b"A;10.0\nB;20.5\nA;30.0\n", 1);
    assert_eq!(t.len(), 2);
    let a = t.get(b"A").unwrap();
    assert_eq!((min_display(&a), max_display(&a), mean_display(&a), a.count()), (10.0, 30.0, 20.0, 2));
    let b = t.get(b"B").unwrap();
    assert_eq!((min_display(&b), max_display(&b), mean_display(&b), b.count()), (20.5, 20.5, 20.5, 1));
}

#[test]
fn end_to_end_negatives() {
    let t = aggregate(b"X;-5.3\nX;5.3\n", 1);
    assert_eq!(t.len(), 1);
    let x = t.get(b"X").unwrap();
    assert_eq!((min_display(&x), max_display(&x), mean_display(&x), x.count()), (-5.3, 5.3, 0.0, 2));
}

#[test]
fn end_to_end_many_workers_agree() {
    let data: &[u8] = b"A;10.0\nB;20.5\nA;30.0\nC;-1.0\nB;-20.5\nA;0.1\nC;7.7\n";
    let one = aggregate(data, 1);
    for n in 2..8usize {
        let many = aggregate(data, n);
        assert_eq!(many.len(), one.len());
        for name in [&b"A"[..], b"B", b"C"] {
            assert_eq!(fields(&many, name), fields(&one, name));
        }
    }
    assert_eq!(fields(&one, b"A"), (1, 300, 401, 3));
    assert_eq!(fields(&one, b"B"), (-205, 205, 0, 2));
    assert_eq!(fields(&one, b"C"), (-10, 77, 67, 2));
}

#[test]
fn table_merge_combines_by_name() {
    let mut a = thread_runner(b"P;1.0\nQ;2.0\n");
    let b = thread_runner(b"Q;-3.0\nR;4.0\n");
    a.merge(&b);
    assert_eq!(a.len(), 3);
    assert_eq!(fields(&a, b"P"), (10, 10, 10, 1));
    assert_eq!(fields(&a, b"Q"), (-30, 20, -10, 2));
    assert_eq!(fields(&a, b"R"), (40, 40, 40, 1));
}

#[test]
fn table_add_measurement_creates_then_updates() {
    let mut t = StationTable::new();
    t.add_measurement(b"Rome", 150);
    t.add_measurement(b"Rome", -20);
    t.add_measurement(b"Lima", 3);
    assert_eq!(t.len(), 2);
    assert_eq!(fields(&t, b"Rome"), (-20, 150, 130, 2));
    assert_eq!(fields(&t, b"Lima"), (3, 3, 3, 1));
}

#[test]
fn byte_equality() {
    assert!(bytes_equal(b"abc", b"abc"));
    assert!(!bytes_equal(b"abc", b"abd"));
    assert!(!bytes_equal(b"ab", b"abc"));
    assert!(bytes_equal(b"", b""));
}

#[test]
fn measurement_grammar_check() {
    assert!(is_parsable_measurement(b"-123.4"));
    assert!(is_parsable_measurement(b"0.0"));
    assert!(is_parsable_measurement(b"3276.7"));
    assert!(!is_parsable_measurement(b"3276.8"));
    assert!(!is_parsable_measurement(b"12"));
    assert!(!is_parsable_measurement(b"1.23"));
    assert!(!is_parsable_measurement(b"-.5"));
    assert!(!is_parsable_measurement(b"1a.5"));
    assert!(!is_parsable_measurement(b""));
}

#[test]
fn record_well_formedness_check() {
    assert!(is_well_formed(b"A;10.0\nB;20.5\nA;30.0\n"));
    assert!(is_well_formed(b"A;10.0"));
    assert!(is_well_formed(b""));
    assert!(!is_well_formed(b"A10.0\n"));
    assert!(!is_well_formed(b"A;10\n"));
    assert!(!is_well_formed(b"A;1.0\nB;x.0\n"));
}

#[test]
fn names_with_newlines_are_rejected() {
    assert!(!is_well_formed(b"A\nB;1.0\n"));
    assert!(is_well_formed(b"A B;1.0\n"));
}

#[test]
fn aggregate_without_trailing_newline_across_partitions() {
    let data: &[u8] = b"Kyiv;12.3\nBern;-0.4\nKyiv;-12.3\nBern;9.9";
    for n in 1..6usize {
        let t = aggregate(data, n);
        assert_eq!(t.len(), 2);
        assert_eq!(fields(&t, b"Kyiv"), (-123, 123, 0, 2));
        assert_eq!(fields(&t, b"Bern"), (-4, 99, 95, 2));
    }
}
