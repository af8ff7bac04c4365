use aoc2024::day9::{part1, part2};

const TEST_INPUT: &str = "2333133121414131402";

#[test]
fn day9_test_part1() {
    assert_eq!(1928, part1(TEST_INPUT));
}

#[test]
fn day9_test_part2() {
    assert_eq!(2858, part2(TEST_INPUT));
}

#[test]
fn day9_small_disks() {
    assert_eq!(60, part1("12345"));
    assert_eq!(132, part2("12345"));
    assert_eq!(0, part1(""));
    assert_eq!(0, part2("1"));
    assert_eq!(1, part1("101"));
    assert_eq!(1, part2("1211"));
}
