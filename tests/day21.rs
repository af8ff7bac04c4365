use aoc2024::day21::{part1, part2};

const TEST_INPUT: &str = "029A\n980A\n179A\n456A\n379A";

#[test]
fn day21_test_part1() {
    // Every code from 000A to 999A but the first has a positive complexity.
    let populated: u32 = (0..1000).map(|i| if part1(&format!("{:03}A", i)) > 0 { 1 } else { 0 }).sum();
    assert_eq!(999, populated);

    assert_eq!(68 * 29, part1("029A"));
    assert_eq!(60 * 980, part1("980A"));
    assert_eq!(68 * 179, part1("179A"));
    assert_eq!(64 * 456, part1("456A"));
    assert_eq!(64 * 379, part1("379A"));
    assert_eq!(126384, part1(TEST_INPUT));
}

#[test]
fn day21_more_robots_cost_more() {
    assert!(part2("029A") > part1("029A"));
    assert_eq!(0, part2(""));
    assert_eq!(part2("029A") + part2("980A"), part2("029A\n980A"));
}
