use aoc2024::day12::{part1, part2};

const TEST_INPUT_A: &str = "\
    AAAA\n\
    BBCD\n\
    BBCC\n\
    EEEC";

const TEST_INPUT_B: &str = "\
    OOOOO\n\
    OXOXO\n\
    OOOOO\n\
    OXOXO\n\
    OOOOO";

const TEST_INPUT_C: &str = "\
    RRRRIICCFF\n\
    RRRRIICCCF\n\
    VVRRRCCFFF\n\
    VVRCCCJFFF\n\
    VVVVCJJCFE\n\
    VVIVCCJJEE\n\
    VVIIICJJEE\n\
    MIIIIIJJEE\n\
    MIIISIJEEE\n\
    MMMISSJEEE";

const TEST_INPUT_D: &str = "\
    EEEEE\n\
    EXXXX\n\
    EEEEE\n\
    EXXXX\n\
    EEEEE";

const TEST_INPUT_E: &str = "\
    AAAAAA\n\
    AAABBA\n\
    AAABBA\n\
    ABBAAA\n\
    ABBAAA\n\
    AAAAAA";

#[test]
fn day12_test_part1() {
    assert_eq!(140, part1(TEST_INPUT_A));
    assert_eq!(772, part1(TEST_INPUT_B));
    assert_eq!(1930, part1(TEST_INPUT_C));
}

#[test]
fn day12_test_part2() {
    assert_eq!(80, part2(TEST_INPUT_A));
    assert_eq!(436, part2(TEST_INPUT_B));
    assert_eq!(1206, part2(TEST_INPUT_C));
    assert_eq!(236, part2(TEST_INPUT_D));
    assert_eq!(368, part2(TEST_INPUT_E));
}

#[test]
fn day12_single_plots() {
    assert_eq!(4, part1("A"));
    assert_eq!(4, part2("A"));
    assert_eq!(12, part1("AA"));
    assert_eq!(8, part1("AB"));
}
