use aoc2024::day0::{part1, part2};

const TEST_INPUT: &str = "\
    ";

#[test]
fn day0_test_part1() {
    assert_eq!(0, part1(TEST_INPUT));
}

#[test]
fn day0_test_part2() {
    assert_eq!(0, part2(TEST_INPUT));
}

#[test]
fn day0_counts_bytes() {
    assert_eq!(5, part1("ab\ncd"));
    assert_eq!(2, part2("\u{e9}"));
}
