use advent::text::{parse_glued_num, parse_nums, parse_nums_from, starts_with_at};

#[test]
fn numbers_are_scanned_exactly() {
    assert_eq!(parse_nums("1 22 333"), Some(vec![1, 22, 333]));
    assert_eq!(parse_nums("  7   15 "), Some(vec![7, 15]));
    assert_eq!(parse_nums(""), Some(vec![]));
    assert_eq!(parse_nums("12x"), None);
    assert_eq!(parse_nums("18446744073709551615"), Some(vec![u64::MAX]));
    assert_eq!(parse_nums("18446744073709551616"), None);
}

#[test]
fn scanning_from_an_offset() {
    assert_eq!(parse_nums_from("Time: 7 15", 5), Some(vec![7, 15]));
}

#[test]
fn glued_numbers() {
    assert_eq!(parse_glued_num("7  15   30", 0), Some(71530));
    assert_eq!(parse_glued_num("7a", 0), None);
}

#[test]
fn prefix_checks() {
    assert!(starts_with_at("Time: 7", "Time", 0));
    assert!(!starts_with_at("Time: 7", "Distance", 0));
    assert!(starts_with_at("abcdef", "cde", 2));
    assert!(!starts_with_at("ab", "abc", 0));
}
