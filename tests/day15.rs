use aoc2024::day15::part1;

const TEST_INPUT_A: &str = "\
    ########\n\
    #..O.O.#\n\
    ##@.O..#\n\
    #...O..#\n\
    #.#.O..#\n\
    #...O..#\n\
    #......#\n\
    ########\n\
    \n\
    <^^>>>vv<v>>v<<";

const TEST_INPUT_B: &str = "\
    ##########\n\
    #..O..O.O#\n\
    #......O.#\n\
    #.OO..O.O#\n\
    #..O@..O.#\n\
    #O#..O...#\n\
    #O..O..O.#\n\
    #.OO.O.OO#\n\
    #....O...#\n\
    ##########\n\
    \n\
    <vv>^<v^>v>^vv^v>v<>v^v<v<^vv<<<^><<><>>v<vvv<>^v^>^<<<><<v<<<v^vv^v>^\n\
    vvv<<^>^v^^><<>>><>^<<><^vv^^<>vvv<>><^^v>^>vv<>v<<<<v<^v>^<^^>>>^<v<v\n\
    ><>vv>v^v^<>><>>>><^^>vv>v<^^^>>v^v^<^^>v^^>v^<^v>v<>>v^v^<v>v^^<^^vv<\n\
    <<v<^>>^^^^>>>v^<>vvv^><v<<<>^^^vv^<vvv>^>v<^^^^v<>^>vvvv><>>v^<<^^^^^\n\
    ^><^><>>><>^^<<^^v>>><^<v>^<vv>>v>>>^v><>^v><<<<v>>v<v<v>vvv>^<><<>^><\n\
    ^>><>^v<><^vvv<^^<><v<<<<<><^v<<<><<<^^<v<^^^><^>>^<v^><<<^>>^v<v^v<v^\n\
    >^>>^v>vv>^<<^v<>><<><<v<<v><>v<^vv<<<>^^v^>^^>>><<^v>>v^v><^^>>^<>vv^\n\
    <><^^>^^^<><vvvvv^v<v<<>^v<v>v<<^><<><<><<<^^<<<^<<>><<><^^^>^^<>^>v<>\n\
    ^^>vv<^v^v<vv>^<><v<^v>^^^>>>^^vvv^>vvv<>>>^<^>>>>>^<<^v>^vvv<>^<><<v>\n\
    v^^>>><<^^<>>^v^<v^vv<>v^<<>^<^v^v><^<<<><<^<v><v<>vv>>v><v^<vv<>v^<<^";

#[test]
fn day15_test_part1() {
    assert_eq!(2028, part1(TEST_INPUT_A));
    assert_eq!(10092, part1(TEST_INPUT_B));
}

#[test]
fn day15_small_warehouses() {
    assert_eq!(103, part1("#####\n#@O.#\n#####\n\n>"));
    assert_eq!(103, part1("#####\n#@O.#\n#####\n\n>>"));
    assert_eq!(102, part1("####\n#@O#\n####\n\n>"));
}
