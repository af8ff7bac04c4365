use aoc2024::day10::{part1, part2};

const TEST_INPUT_A: &str = "\
    0123\n\
    1234\n\
    8765\n\
    9876";

const TEST_INPUT_B: &str = "\
    ...0...\n\
    ...1...\n\
    ...2...\n\
    6543456\n\
    7.....7\n\
    8.....8\n\
    9.....9";

const TEST_INPUT_C: &str = "\
    ..90..9\n\
    ...1.98\n\
    ...2..7\n\
    6543456\n\
    765.987\n\
    876....\n\
    987....";

const TEST_INPUT_D: &str = "\
    10..9..\n\
    2...8..\n\
    3...7..\n\
    4567654\n\
    ...8..3\n\
    ...9..2\n\
    .....01";

const TEST_INPUT_E: &str = "\
    89010123\n\
    78121874\n\
    87430965\n\
    96549874\n\
    45678903\n\
    32019012\n\
    01329801\n\
    10456732";

const TEST_INPUT_F: &str = "\
    .....0.\n\
    ..4321.\n\
    ..5..2.\n\
    ..6543.\n\
    ..7..4.\n\
    ..8765.\n\
    ..9....";

const TEST_INPUT_G: &str = "\
    ..90..9\n\
    ...1.98\n\
    ...2..7\n\
    6543456\n\
    765.987\n\
    876....\n\
    987....";

const TEST_INPUT_H: &str = "\
    012345\n\
    123456\n\
    234567\n\
    345678\n\
    4.6789\n\
    56789.";

#[test]
fn day10_test_part1() {
    assert_eq!(1, part1(TEST_INPUT_A));
    assert_eq!(2, part1(TEST_INPUT_B));
    assert_eq!(4, part1(TEST_INPUT_C));
    assert_eq!(3, part1(TEST_INPUT_D));
    assert_eq!(36, part1(TEST_INPUT_E));
}

#[test]
fn day10_test_part2() {
    assert_eq!(3, part2(TEST_INPUT_F));
    assert_eq!(13, part2(TEST_INPUT_G));
    assert_eq!(227, part2(TEST_INPUT_H));
    assert_eq!(81, part2(TEST_INPUT_E));
}

#[test]
fn day10_small_maps() {
    assert_eq!(0, part1(""));
    assert_eq!(1, part1("0123456789"));
    assert_eq!(1, part2("0123456789"));
    assert_eq!(0, part2("012345678"));
    assert_eq!(2, part1("9876543210123456789"));
    assert_eq!(2, part2("9876543210123456789"));
}
