use aoc2024::day20::Grid;

const TEST_INPUT: &str = "\
    ###############\n\
    #...#...#.....#\n\
    #.#.#.#.#.###.#\n\
    #S#...#.#.#...#\n\
    #######.#.#.###\n\
    #######.#.#...#\n\
    #######.#.###.#\n\
    ###..E#...#...#\n\
    ###.#######.###\n\
    #...###...#...#\n\
    #.#####.#.###.#\n\
    #.#...#.#.#...#\n\
    #.#.#.#.#.#.###\n\
    #...#...#...###\n\
    ###############";

#[test]
fn day20_test_part1() {
    assert_eq!(44, Grid::get_cheat_count(TEST_INPUT, 2, 2));
    assert_eq!(30, Grid::get_cheat_count(TEST_INPUT, 4, 2));
    assert_eq!(16, Grid::get_cheat_count(TEST_INPUT, 6, 2));
    assert_eq!(14, Grid::get_cheat_count(TEST_INPUT, 8, 2));
    assert_eq!(10, Grid::get_cheat_count(TEST_INPUT, 10, 2));
    assert_eq!(8, Grid::get_cheat_count(TEST_INPUT, 12, 2));
    assert_eq!(5, Grid::get_cheat_count(TEST_INPUT, 20, 2));
    assert_eq!(4, Grid::get_cheat_count(TEST_INPUT, 36, 2));
    assert_eq!(3, Grid::get_cheat_count(TEST_INPUT, 38, 2));
    assert_eq!(2, Grid::get_cheat_count(TEST_INPUT, 40, 2));
    assert_eq!(1, Grid::get_cheat_count(TEST_INPUT, 64, 2));
}

#[test]
fn day20_test_part2() {
    assert_eq!(285, Grid::get_cheat_count(TEST_INPUT, 50, 20));
    assert_eq!(253, Grid::get_cheat_count(TEST_INPUT, 52, 20));
    assert_eq!(222, Grid::get_cheat_count(TEST_INPUT, 54, 20));
    assert_eq!(193, Grid::get_cheat_count(TEST_INPUT, 56, 20));
    assert_eq!(154, Grid::get_cheat_count(TEST_INPUT, 58, 20));
    assert_eq!(129, Grid::get_cheat_count(TEST_INPUT, 60, 20));
    assert_eq!(106, Grid::get_cheat_count(TEST_INPUT, 62, 20));
    assert_eq!(86, Grid::get_cheat_count(TEST_INPUT, 64, 20));
    assert_eq!(67, Grid::get_cheat_count(TEST_INPUT, 66, 20));
    assert_eq!(55, Grid::get_cheat_count(TEST_INPUT, 68, 20));
    assert_eq!(41, Grid::get_cheat_count(TEST_INPUT, 70, 20));
    assert_eq!(29, Grid::get_cheat_count(TEST_INPUT, 72, 20));
    assert_eq!(7, Grid::get_cheat_count(TEST_INPUT, 74, 20));
    assert_eq!(3, Grid::get_cheat_count(TEST_INPUT, 76, 20));
}

#[test]
fn day20_straight_track() {
    assert_eq!(0, Grid::get_cheat_count("#####\n#S.E#\n#####", 1, 2));
    assert_eq!(1, Grid::get_cheat_count("#####\n#S#E#\n#...#\n#####", 2, 2));
}
