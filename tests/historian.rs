use daily_puzzles::historian::{solve_part1, solve_part2, HistorianLists, ListError};

const EXAMPLE_INPUT: &str = "3 4\n4 3\n2 5\n1 3\n3 9\n3 3";

#[test]
fn test_part1_example() {
    assert_eq!(solve_part1(EXAMPLE_INPUT).unwrap(), 11);
}

#[test]
fn test_part2_example() {
    assert_eq!(solve_part2(EXAMPLE_INPUT).unwrap(), 31);
}

#[test]
fn test_empty_input() {
    let input = "";
    assert!(solve_part1(input).is_ok());
    assert!(solve_part2(input).is_ok());
}

#[test]
fn test_invalid_input() {
    let input = "3 4 5\n4 3";
    assert!(solve_part1(input).is_err());
    assert!(solve_part2(input).is_err());
}

#[test]
fn three_words_is_a_token_count_error() {
    assert_eq!(solve_part1("3 4 5\n4 3"), Err(ListError::WrongTokenCount));
    assert_eq!(solve_part2("1 2\n7"), Err(ListError::WrongTokenCount));
}

#[test]
fn bad_number_is_reported() {
    assert_eq!(solve_part1("3 4\n4 x"), Err(ListError::InvalidNumber));
    assert_eq!(solve_part1("3 4\n4 2147483648"), Err(ListError::InvalidNumber));
}

#[test]
fn blank_lines_and_crlf_are_skipped() {
    assert_eq!(solve_part1("3 4\r\n\r\n  \n4 3\r\n"), Ok(0));
    assert_eq!(solve_part1("-5 +5\n"), Ok(10));
}

#[test]
fn lists_are_read_in_line_order() {
    let h = HistorianLists::from_str("3 4\n4 3\n2 5").unwrap();
    assert_eq!(h.left, vec![3, 4, 2]);
    assert_eq!(h.right, vec![4, 3, 5]);
    assert_eq!(h.calculate_total_distance(), Some(3));
    assert_eq!(h.calculate_similarity_score(), Some(7));
}

#[test]
fn distance_overflow_is_reported() {
    assert_eq!(solve_part1("2147483647 -1"), Err(ListError::Overflow));
    assert_eq!(solve_part1("2147483647 0\n1 0"), Err(ListError::Overflow));
    assert_eq!(solve_part2("2147483647 2147483647\n1 2147483647"), Err(ListError::Overflow));
}

#[test]
fn similarity_counts_repeats() {
    assert_eq!(solve_part2("2 2\n2 2\n-3 2\n5 -3"), Ok(2 * 3 + 2 * 3 - 3));
}
