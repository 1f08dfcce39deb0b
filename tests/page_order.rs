use daily_puzzles::page_order::{
    is_valid_order, parse_input, solve_part1, solve_part2, topological_sort, PageError, Update,
};

const TEST_INPUT: &str = "47|53
97|13
97|61
97|47
75|29
61|13
75|53
29|13
97|29
53|29
61|53
97|53
61|29
47|13
75|47
97|75
47|61
75|61
47|29
75|13
53|13

75,47,61,53,29
97,61,53,29,13
75,29,13
75,97,47,61,53
61,13,29
97,13,75,29,47";

#[test]
fn test_part1() {
    assert_eq!(solve_part1(TEST_INPUT).unwrap(), 143);
}

#[test]
fn test_part2() {
    assert_eq!(solve_part2(TEST_INPUT).unwrap(), 123);
}

#[test]
fn sample_is_parsed() {
    let (rules, updates) = parse_input(TEST_INPUT).unwrap();
    assert_eq!(rules.len(), 21);
    assert_eq!(rules[0], (47, 53));
    assert_eq!(updates.len(), 6);
    assert_eq!(updates[2].pages, vec![75, 29, 13]);
    assert_eq!(updates[2].middle_page(), 29);
}

#[test]
fn sample_validity() {
    let (rules, updates) = parse_input(TEST_INPUT).unwrap();
    let valid: Vec<bool> = updates.iter().map(|u| is_valid_order(&u.pages, &rules)).collect();
    assert_eq!(valid, vec![true, true, true, false, false, false]);
}

#[test]
fn corrected_orders_are_valid() {
    let (rules, updates) = parse_input(TEST_INPUT).unwrap();
    for u in &updates {
        let sorted = topological_sort(&u.pages, &rules);
        assert_eq!(sorted.len(), u.pages.len());
        assert!(is_valid_order(&sorted, &rules));
    }
    assert_eq!(topological_sort(&[97, 13, 75, 29, 47], &rules), vec![97, 75, 47, 29, 13]);
    assert_eq!(topological_sort(&[75, 97, 47, 61, 53], &rules), vec![97, 75, 47, 61, 53]);
}

#[test]
fn ties_go_to_the_smallest_page() {
    assert_eq!(topological_sort(&[5, 3, 9], &[]), vec![3, 5, 9]);
    assert_eq!(topological_sort(&[5, 3, 9, 3], &[(9, 3)]), vec![5, 9, 3]);
}

#[test]
fn pages_on_a_cycle_are_left_out() {
    let rules = [(1, 2), (2, 1), (3, 1)];
    assert_eq!(topological_sort(&[1, 2, 3], &rules), vec![3]);
    assert!(!is_valid_order(&[1, 2], &rules));
    assert_eq!(solve_part2("1|2\n2|1\n\n1,2"), Err(PageError::NoOrder));
}

#[test]
fn duplicate_pages_in_order_check() {
    assert!(!is_valid_order(&[1, 2, 1], &[(1, 2)]));
    assert!(is_valid_order(&[1, 1, 2], &[(1, 2)]));
    assert!(!is_valid_order(&[4], &[(4, 4)]));
}

#[test]
fn malformed_manuals_are_rejected() {
    assert_eq!(solve_part1("1|2\n1,2"), Err(PageError::MissingBlankLine));
    assert_eq!(solve_part1("1|x\n\n1,2"), Err(PageError::BadRule));
    assert_eq!(solve_part1("1|2|3\n\n1,2"), Err(PageError::BadRule));
    assert_eq!(solve_part1("1|2\n\n1,y"), Err(PageError::BadUpdate));
    assert_eq!(solve_part2("1|2\n\n1,,2"), Err(PageError::BadUpdate));
}

#[test]
fn empty_update_lines_are_skipped() {
    assert_eq!(solve_part1("1|2\n\n\n1,2,3\n\n4\n"), Ok(6));
    assert_eq!(solve_part2("1|2\n\n3,2,1\n"), Ok(2));
}

#[test]
fn sum_overflow_is_reported() {
    assert_eq!(solve_part1("\n4294967295\n1"), Err(PageError::Overflow));
    assert_eq!(solve_part1("\n4294967295"), Ok(4294967295));
}

#[test]
fn middle_page_of_even_length() {
    let u = Update { pages: vec![1, 2, 3, 4] };
    assert_eq!(u.middle_page(), 3);
}
