use aoc2024::day2::{part1, part2};

const TEST_INPUT: &str = "\
    7 6 4 2 1\n\
    1 2 7 8 9\n\
    9 7 6 2 1\n\
    1 3 2 4 5\n\
    8 6 4 4 1\n\
    1 3 6 7 9";

#[test]
fn day2_test_part1() {
    assert_eq!(2, part1(TEST_INPUT));
}

#[test]
fn day2_test_part2() {
    assert_eq!(4, part2(TEST_INPUT));
}

#[test]
fn day2_edge_reports() {
    assert_eq!(1, part1("5"));
    assert_eq!(0, part1("5 5"));
    assert_eq!(1, part1("1 4"));
    assert_eq!(0, part1("1 5"));
    assert_eq!(1, part2("1 5"));
    assert_eq!(1, part2("9 1 2 3"));
    assert_eq!(0, part2("1 9 2 10 3"));
}

#[test]
fn day2_signed_and_unreadable_words() {
    assert_eq!(0, part1("5 -3"));
    assert_eq!(1, part1("-1 -3 -4"));
    assert_eq!(1, part1("5x 1 2"));
    assert_eq!(1, part1("1 +2 3"));
    assert_eq!(1, part1("7 99999999999 8"));
    assert_eq!(1, part2("5 -3 6"));
}
