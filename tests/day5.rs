use aoc2024::day5::{part1, part2};

const TEST_INPUT: &str = "\
    47|53\n\
    97|13\n\
    97|61\n\
    97|47\n\
    75|29\n\
    61|13\n\
    75|53\n\
    29|13\n\
    97|29\n\
    53|29\n\
    61|53\n\
    97|53\n\
    61|29\n\
    47|13\n\
    75|47\n\
    97|75\n\
    47|61\n\
    75|61\n\
    47|29\n\
    75|13\n\
    53|13\n\
    \n\
    75,47,61,53,29\n\
    97,61,53,29,13\n\
    75,29,13\n\
    75,97,47,61,53\n\
    61,13,29\n\
    97,13,75,29,47";

#[test]
fn day5_test_part1() {
    assert_eq!(143, part1(TEST_INPUT));
}

#[test]
fn day5_test_part2() {
    assert_eq!(123, part2(TEST_INPUT));
}

#[test]
fn day5_single_rule() {
    assert_eq!(2, part1("1|2\n\n1,2,3"));
    assert_eq!(0, part2("1|2\n\n1,2,3"));
    assert_eq!(0, part1("1|2\n\n2,1,3"));
    assert_eq!(0, part1("3|1\n3|2\n2|1\n\n1,2,3"));
    assert_eq!(2, part2("3|1\n3|2\n2|1\n\n1,2,3"));
}
