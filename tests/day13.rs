use aoc2024::day13::{part1, part2};

const TEST_INPUT: &str = "\
    Button A: X+94, Y+34\n\
    Button B: X+22, Y+67\n\
    Prize: X=8400, Y=5400\n\
    \n\
    Button A: X+26, Y+66\n\
    Button B: X+67, Y+21\n\
    Prize: X=12748, Y=12176\n\
    \n\
    Button A: X+17, Y+86\n\
    Button B: X+84, Y+37\n\
    Prize: X=7870, Y=6450\n\
    \n\
    Button A: X+69, Y+23\n\
    Button B: X+27, Y+71\n\
    Prize: X=18641, Y=10279\n\
    \n";

#[test]
fn day13_test_part1() {
    assert_eq!(480, part1(TEST_INPUT));
}

#[test]
fn day13_test_part2() {
    assert_eq!(875318608908, part2(TEST_INPUT));
}

#[test]
fn day13_single_machines() {
    assert_eq!(280, part1("Button A: X+94, Y+34\nButton B: X+22, Y+67\nPrize: X=8400, Y=5400"));
    assert_eq!(0, part1("Button A: X+26, Y+66\nButton B: X+67, Y+21\nPrize: X=12748, Y=12176"));
    assert_eq!(0, part1(""));
    assert_eq!(5, part1("Button A: X+1, Y+0\nButton B: X+0, Y+1\nPrize: X=1, Y=2"));
}
