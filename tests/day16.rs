use aoc2024::day16::{part1, part2};

const TEST_INPUT_A: &str = "\
    ###############\n\
    #.......#....E#\n\
    #.#.###.#.###.#\n\
    #.....#.#...#.#\n\
    #.###.#####.#.#\n\
    #.#.#.......#.#\n\
    #.#.#####.###.#\n\
    #...........#.#\n\
    ###.#.#####.#.#\n\
    #...#.....#.#.#\n\
    #.#.#.###.#.#.#\n\
    #.....#...#.#.#\n\
    #.###.#.#.#.#.#\n\
    #S..#.....#...#\n\
    ###############";

const TEST_INPUT_B: &str = "\
    #################\n\
    #...#...#...#..E#\n\
    #.#.#.#.#.#.#.#.#\n\
    #.#.#.#...#...#.#\n\
    #.#.#.#.###.#.#.#\n\
    #...#.#.#.....#.#\n\
    #.#.#.#.#.#####.#\n\
    #.#...#.#.#.....#\n\
    #.#.#####.#.###.#\n\
    #.#.#.......#...#\n\
    #.#.###.#####.###\n\
    #.#.#...#.....#.#\n\
    #.#.#.#####.###.#\n\
    #.#.#.........#.#\n\
    #.#.#.#########.#\n\
    #S#.............#\n\
    #################";

#[test]
fn day16_test_part1() {
    assert_eq!(Some(7036), part1(TEST_INPUT_A));
    assert_eq!(Some(11048), part1(TEST_INPUT_B));
}

#[test]
fn day16_small_mazes() {
    assert_eq!(Some(2), part1("#####\n#S.E#\n#####"));
    assert_eq!(Some(1001), part1("###\n#E#\n#S#\n###"));
    assert_eq!(None, part1("#####\n#S#E#\n#####"));
}

#[test]
fn day16_test_part2() {
    assert_eq!(Some(45), part2(TEST_INPUT_A));
    assert_eq!(Some(64), part2(TEST_INPUT_B));
}

#[test]
fn day16_small_tiles() {
    assert_eq!(Some(3), part2("#####\n#S.E#\n#####"));
    assert_eq!(None, part2("#####\n#S#E#\n#####"));
    assert_eq!(Some(3), part2("####\n#.E#\n#S.#\n####"));
}
