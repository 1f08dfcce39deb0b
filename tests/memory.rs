use daily_puzzles::memory::{parse_control_instruction, parse_mul_instruction, process_memory};

fn chars(s: &str) -> Vec<char> {
    s.chars().collect()
}

#[test]
fn main_test_part1_example() {
    let input = "xmul(2,4)%&mul[3,7]!@^do_not_mul(5,5)+mul(32,64]then(mul(11,8)mul(8,5))";
    assert_eq!(process_memory(input).unwrap(), 161);
}

#[test]
fn main_test_part2_example() {
    let input = "xmul(2,4)&mul[3,7]!^don't()_mul(5,5)+mul(32,64](mul(11,8)do()?mul(8,5))";
    assert_eq!(process_memory(input).unwrap(), 48);
}

#[test]
fn test_multiple_controls() {
    let input = "mul(2,3)don't()mul(4,5)do()mul(6,7)don't()mul(8,9)";
    assert_eq!(process_memory(input).unwrap(), 48); // 2*3 + 6*7
}

#[test]
fn test_controls_with_invalid_instructions() {
    let input = "do()mul(1,2)don't()mul(3,4]do()mul(5,6)";
    assert_eq!(process_memory(input).unwrap(), 32); // 1*2 + 5*6
}

#[test]
fn operands_out_of_range_are_skipped() {
    assert_eq!(process_memory("mul(1,1)mul(999,999)mul(1000,5)"), Some(1 + 999 * 999));
    assert_eq!(process_memory("mul(0,5)mul(5,0)"), Some(0));
    assert_eq!(process_memory("mul(0007,3)"), Some(0));
    assert_eq!(process_memory("mul(007,3)"), Some(21));
    assert_eq!(process_memory("mul(3,0007)mul(12,0010)"), Some(0));
    assert_eq!(process_memory("mul(99999999999,1)"), Some(0));
}

#[test]
fn mul_instruction_is_read() {
    assert_eq!(parse_mul_instruction(&chars("mul(2,4)"), 0), Some((8, 8)));
    assert_eq!(parse_mul_instruction(&chars("xmul(12,30)y"), 1), Some((11, 360)));
    assert_eq!(parse_mul_instruction(&chars("mul(2,4"), 0), None);
    assert_eq!(parse_mul_instruction(&chars("mul(,4)"), 0), None);
    assert_eq!(parse_mul_instruction(&chars("mul(2 ,4)"), 0), None);
    assert_eq!(parse_mul_instruction(&chars("mul(1000,4)"), 0), None);
    assert_eq!(parse_mul_instruction(&chars("mul(0005,2)"), 0), None);
    assert_eq!(parse_mul_instruction(&chars("mul(2,0005)"), 0), None);
    assert_eq!(parse_mul_instruction(&chars("mul(005,002)"), 0), Some((12, 10)));
}

#[test]
fn control_instruction_is_read() {
    assert_eq!(parse_control_instruction(&chars("do()"), 0), Some((4, true)));
    assert_eq!(parse_control_instruction(&chars("xdon't()"), 1), Some((8, false)));
    assert_eq!(parse_control_instruction(&chars("don't("), 0), None);
    assert_eq!(parse_control_instruction(&chars("do("), 0), None);
}

#[test]
fn non_ascii_text_is_scanned_by_character() {
    assert_eq!(process_memory("émul(3,3)ü"), Some(9));
}
