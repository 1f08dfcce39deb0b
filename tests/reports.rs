use daily_puzzles::reports::{is_safe_levels, is_safe_report, solve};

#[test]
fn test_example() {
    let input = "7 6 4 2 1
1 2 7 8 9
9 7 6 2 1
1 3 2 4 5
8 6 4 4 1
1 3 6 7 9
";
    assert_eq!(solve(input).unwrap(), 2);
}

#[test]
fn test_individual_cases() {
    assert!(is_safe_report("7 6 4 2 1").unwrap()); // Decreasing by 1 or 2
    assert!(!is_safe_report("1 2 7 8 9").unwrap()); // Increase of 5
    assert!(!is_safe_report("9 7 6 2 1").unwrap()); // Decrease of 4
    assert!(!is_safe_report("1 3 2 4 5").unwrap()); // Mixed increase/decrease
    assert!(!is_safe_report("8 6 4 4 1").unwrap()); // No change between numbers
    assert!(is_safe_report("1 3 6 7 9").unwrap()); // Increasing by 1, 2, or 3
}

#[test]
fn short_reports_are_unsafe() {
    assert_eq!(is_safe_report(""), Some(false));
    assert_eq!(is_safe_report("5"), Some(false));
    assert_eq!(is_safe_report("5 6"), Some(true));
    assert_eq!(solve("1 2\n\n3\n"), Some(1));
}

#[test]
fn bad_level_is_reported() {
    assert_eq!(is_safe_report("1 2 x"), None);
    assert_eq!(solve("1 2 3\n4 five"), None);
}

#[test]
fn extreme_levels_do_not_overflow() {
    assert!(!is_safe_levels(&vec![i32::MIN, i32::MAX]));
    assert!(is_safe_levels(&vec![i32::MAX - 3, i32::MAX]));
}
