use aoc2024::day3::{part1, part2};

#[test]
fn day3_test_part1() {
    assert_eq!(161, part1("xmul(2,4)%&mul[3,7]!@^do_not_mul(5,5)+mul(32,64]then(mul(11,8)mul(8,5))"));
}

#[test]
fn day3_test_part2() {
    assert_eq!(48, part2("xmul(2,4)&mul[3,7]!^don't()_mul(5,5)+mul(32,64](mul(11,8)undo()?mul(8,5))"));
}

#[test]
fn day3_malformed_instructions() {
    assert_eq!(0, part1("mul(1234,5)"));
    assert_eq!(0, part1("mul(12,5"));
    assert_eq!(0, part1("mul( 1,5)"));
    assert_eq!(999 * 999, part1("mul(999,999)"));
    assert_eq!(6, part1("mmul(2,3)"));
    assert_eq!(0, part2("don't()mul(2,3)"));
    assert_eq!(6, part2("don't()\ndo()mul(2,3)"));
}
