use aoc2024::day11::{blinks, part1, part2};

const TEST_INPUT: &str = "125 17";

#[test]
fn day11_test_part1() {
    assert_eq!(22, blinks(6, TEST_INPUT));
    assert_eq!(55312, part1(TEST_INPUT));
}

#[test]
fn day11_test_part2() {
    assert_eq!(blinks(75, TEST_INPUT), part2(TEST_INPUT));
}

#[test]
fn day11_single_blinks() {
    assert_eq!(1, blinks(0, "0"));
    assert_eq!(1, blinks(1, "0"));
    assert_eq!(2, blinks(1, "1000"));
    assert_eq!(1, blinks(1, "999"));
    assert_eq!(7, blinks(1, "0 1 10 99 999"));
    assert_eq!(0, blinks(5, ""));
    assert_eq!(3, blinks(2, "1000"));
}
