use aoc2024::day6::{part1, part2};

const TEST_INPUT: &str = "\
    ....#.....\n\
    .........#\n\
    ..........\n\
    ..#.......\n\
    .......#..\n\
    ..........\n\
    .#..^.....\n\
    ........#.\n\
    #.........\n\
    ......#...";

#[test]
fn day6_test_part1() {
    assert_eq!(41, part1(TEST_INPUT));
}

#[test]
fn day6_test_part2() {
    assert_eq!(6, part2(TEST_INPUT));
}

#[test]
fn day6_small_maps() {
    assert_eq!(1, part1("^"));
    assert_eq!(3, part1(".\n.\n^"));
    assert_eq!(3, part1("#.\n..\n^."));
    assert_eq!(0, part2(".\n.\n^"));
    assert_eq!(0, part2(".#..\n...#\n^...\n..#."));
}
