use advent::almanac::{parse_map, MapEntry, RangeMap, Span};

fn sp(start: u64, end: u64) -> Span {
    Span { start, end }
}

#[test]
fn test_map() {
    let map_str = "seed-to-soil map:\n50 98 2\n52 50 48";
    let lines: Vec<String> = map_str.lines().map(|l| l.to_string()).collect();
    let (map, next) = parse_map(&lines, 0, "seed-to-soil").unwrap();
    assert_eq!(next, 3);
    assert_eq!(map.map(&sp(94, 100)), vec![sp(96, 100), sp(50, 52)]);
    assert_eq!(map.map(&sp(50, 52)), vec![sp(52, 54)]);
    assert_eq!(map.map(&sp(10, 12)), vec![sp(10, 12)]);
}

#[test]
fn build_and_sort() {
    let mut m = RangeMap::new();
    m.add(52, 50, 48);
    m.add(50, 98, 2);
    assert_eq!(
        m.items,
        vec![
            MapEntry { start: 50, end: 98, offset: 2 },
            MapEntry { start: 98, end: 100, offset: -48 },
        ]
    );
    m.sort();
    assert_eq!(m.items[0].start, 50);
    assert_eq!(m.items[1].start, 98);
}

#[test]
fn map_splits_across_rules() {
    let mut m = RangeMap::new();
    m.add(0, 10, 5);
    m.sort();
    // Before, inside, and after the single rule.
    assert_eq!(m.map(&sp(5, 20)), vec![sp(5, 10), sp(0, 5), sp(15, 20)]);
}

#[test]
fn parse_map_rejects_bad_rows() {
    let lines: Vec<String> = vec!["seed-to-soil map:".to_string(), "50 98".to_string()];
    assert!(parse_map(&lines, 0, "seed-to-soil").is_none());
    let lines2: Vec<String> = vec!["other map:".to_string(), "50 98 2".to_string()];
    assert!(parse_map(&lines2, 0, "seed-to-soil").is_none());
}
