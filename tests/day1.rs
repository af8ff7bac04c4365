use aoc2024::day1::{part1, part2};

const TEST_INPUT: &str = "\
    3   4\n\
    4   3\n\
    2   5\n\
    1   3\n\
    3   9\n\
    3   3";

#[test]
fn day1_test_part1() {
    assert_eq!(11, part1(TEST_INPUT));
}

#[test]
fn day1_test_part2() {
    assert_eq!(31, part2(TEST_INPUT));
}

#[test]
fn day1_edge_lists() {
    assert_eq!(0, part1(""));
    assert_eq!(0, part2(""));
    assert_eq!(5, part1("7 2\n\n1 1"));
    assert_eq!(1, part2("7 2\n1 1\n5"));
    assert_eq!(14, part2("7 7\n7 2"));
    assert_eq!(7, part1("-3   4"));
    assert_eq!(3, part1("-3   4\n2   -4"));
}
