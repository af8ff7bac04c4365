use aoc2024::day8::{part1, part2};

const TEST_INPUT: &str = "\
    ............\n\
    ........0...\n\
    .....0......\n\
    .......0....\n\
    ....0.......\n\
    ......A.....\n\
    ............\n\
    ............\n\
    ........A...\n\
    .........A..\n\
    ............\n\
    ............";

#[test]
fn day8_test_part1() {
    assert_eq!(14, part1(TEST_INPUT));
}

#[test]
fn day8_test_part2() {
    assert_eq!(34, part2(TEST_INPUT));
}

#[test]
fn day8_small_maps() {
    assert_eq!(1, part1("..........\n...a......\n..........\n....a.....\n..........\n..........\n.........."));
    assert_eq!(0, part1("a.b"));
    assert_eq!(2, part1(".aa."));
    assert_eq!(4, part2(".aa."));
    assert_eq!(9, part2("T.........\n...T......\n.T........\n..........\n..........\n..........\n..........\n..........\n..........\n.........."));
}
