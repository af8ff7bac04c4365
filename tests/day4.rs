use aoc2024::day4::{part1, part2};

const TEST_INPUT: &str = "\
    MMMSXXMASM\n\
    MSAMXMSMSA\n\
    AMXSXMAAMM\n\
    MSAMASMSMX\n\
    XMASAMXAMM\n\
    XXAMMXXAMA\n\
    SMSMSASXSS\n\
    SAXAMASAAA\n\
    MAMMMXMMMM\n\
    MXMXAXMASX";

#[test]
fn day4_test_part1() {
    assert_eq!(18, part1(TEST_INPUT));
}

#[test]
fn day4_test_part2() {
    assert_eq!(9, part2(TEST_INPUT));
}

#[test]
fn day4_small_searches() {
    assert_eq!(2, part1("XMASAMX"));
    assert_eq!(1, part1("X\nM\nA\nS"));
    assert_eq!(1, part1("S...\n.A..\n..M.\n...X"));
    assert_eq!(0, part1("XMA"));
    assert_eq!(1, part2("M.S\n.A.\nM.S"));
    assert_eq!(0, part2("M.M\n.A.\nM.S"));
    assert_eq!(1, part2("S.M\n.A.\nS.M"));
}
