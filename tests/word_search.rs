use daily_puzzles::word_search::{check_mas, check_x_pattern, count_x_mas, count_xmas, parse_grid};

fn grid(rows: &[&str]) -> Vec<Vec<char>> {
    rows.iter().map(|r| r.chars().collect()).collect()
}

#[test]
fn main_test_example() {
    let input = vec![
        ".M.S......".chars().collect(),
        "..A..MSMS.".chars().collect(),
        ".M.S.MAA..".chars().collect(),
        "..A.ASMSM.".chars().collect(),
        ".M.S.M....".chars().collect(),
        "..........".chars().collect(),
        "S.S.S.S.S.".chars().collect(),
        ".A.A.A.A..".chars().collect(),
        "M.M.M.M.M.".chars().collect(),
        "..........".chars().collect(),
    ];

    assert_eq!(count_x_mas(&input), 9);
}

#[test]
fn test_simple_x() {
    let input = vec![
        "M.S".chars().collect(),
        ".A.".chars().collect(),
        "M.S".chars().collect(),
    ];

    assert_eq!(count_x_mas(&input), 1);
}

const SAMPLE: [&str; 10] = [
    "MMMSXXMASM",
    "MSAMXMSMSA",
    "AMXSXMAAMM",
    "MSAMASMSMX",
    "XMASAMXAMM",
    "XXAMMXXAMA",
    "SMSMSASXSS",
    "SAXAMASAAA",
    "MAMMMXMMMM",
    "MXMXAXMASX",
];

#[test]
fn straight_xmas_in_sample() {
    assert_eq!(count_xmas(&grid(&SAMPLE)), 18);
}

#[test]
fn x_mas_in_straight_sample() {
    assert_eq!(count_x_mas(&grid(&SAMPLE)), 9);
}

#[test]
fn xmas_in_every_direction() {
    assert_eq!(count_xmas(&grid(&["XMAS"])), 1);
    assert_eq!(count_xmas(&grid(&["SAMX"])), 1);
    assert_eq!(count_xmas(&grid(&["X", "M", "A", "S"])), 1);
    assert_eq!(count_xmas(&grid(&["S...", ".A..", "..M.", "...X"])), 1);
    assert_eq!(count_xmas(&grid(&["XMAS", "MM..", "A.A.", "S..S"])), 3);
}

#[test]
fn empty_and_ragged_grids() {
    assert_eq!(count_x_mas(&Vec::new()), 0);
    assert_eq!(count_xmas(&Vec::new()), 0);
    assert_eq!(count_x_mas(&grid(&["", "A", "M.S..."])), 0);
    assert_eq!(count_xmas(&grid(&["XMASX", "", "SAMX"])), 2);
}

#[test]
fn mas_and_x_pattern_checks() {
    let g = grid(&["M.S", ".A.", "M.S"]);
    assert!(check_mas(&g, 1, 1, (-1, -1), (1, 1)));
    assert!(!check_mas(&g, 1, 1, (1, 1), (-1, -1)));
    assert!(!check_mas(&g, 0, 0, (-1, -1), (1, 1)));
    assert_eq!(check_x_pattern(&g, 1, 1, ((-1, -1), (1, 1)), ((-1, 1), (1, -1))), 1);
    let all = grid(&["MMM", ".A.", "SSS"]);
    assert_eq!(check_x_pattern(&all, 1, 1, ((-1, -1), (1, 1)), ((-1, 1), (1, -1))), 1);
}

#[test]
fn grid_is_read_by_lines() {
    let g = parse_grid("M.S\r\n.A.\nM.S\n");
    assert_eq!(g, grid(&["M.S", ".A.", "M.S"]));
    assert_eq!(count_x_mas(&g), 1);
}
