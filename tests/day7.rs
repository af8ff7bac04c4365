use aoc2024::day7::{part1, part2};

const TEST_INPUT: &str = "\
    190: 10 19\n\
    3267: 81 40 27\n\
    83: 17 5\n\
    156: 15 6\n\
    7290: 6 8 6 15\n\
    161011: 16 10 13\n\
    192: 17 8 14\n\
    21037: 9 7 18 13\n\
    292: 11 6 16 20";

#[test]
fn day7_test_part1() {
    assert_eq!(3749, part1(TEST_INPUT));
}

#[test]
fn day7_test_part2() {
    assert_eq!(11387, part2(TEST_INPUT));
}

#[test]
fn day7_single_number_and_concatenation() {
    assert_eq!(5, part1("5: 5"));
    assert_eq!(0, part1("6: 5"));
    assert_eq!(0, part1("1005: 10 5"));
    assert_eq!(0, part2("1005: 10 05"));
    assert_eq!(1005, part2("1005: 100 5"));
    assert_eq!(0, part2("105: 1 5"));
}

#[test]
fn day7_stops_at_first_line_without_colon() {
    assert_eq!(190, part1("190: 10 19\n\n3267: 81 40 27"));
    assert_eq!(3457, part1("190: 10 19\n3267: 81 40 27\n"));
}

#[test]
fn day7_zero_values() {
    assert_eq!(0, part1("3: 0 5"));
    assert_eq!(5, part1("5: 0 5"));
    assert_eq!(7, part1("7: 7 0 0"));
    assert_eq!(0, part1("6: 7 0"));
    assert_eq!(50, part2("50: 5 0"));
}
