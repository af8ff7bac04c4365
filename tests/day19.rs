use aoc2024::day19::{part1, part2};

const TEST_INPUT: &str = "\
    r, wr, b, g, bwu, rb, gb, br\n\n\
    brwrr\nbggr\ngbbr\nrrbgbr\nubwu\nbwurrg\nbrgr\nbbrgwb";

#[test]
fn day19_test_part1() {
    assert_eq!(6, part1(TEST_INPUT));
}

#[test]
fn day19_test_part2() {
    assert_eq!(16, part2(TEST_INPUT));
}

#[test]
fn day19_small_designs() {
    assert_eq!(1, part1("a, b\n\nab"));
    assert_eq!(2, part2("a, b, ab\n\nab"));
    assert_eq!(0, part2("a\n\nb"));
    assert_eq!(8, part2("a, aa\n\naaaaa"));
}
