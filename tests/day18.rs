use aoc2024::day18::Grid;

const TEST_INPUT_A: &str = "\
    5,4\n4,2\n4,5\n3,0\n2,1\n6,3\n2,4\n1,5\n0,6\n3,3\n2,6\n5,1\n1,2\n\
    5,5\n2,5\n6,5\n1,4\n0,4\n6,4\n1,1\n6,1\n1,0\n0,5\n1,6\n2,0";

#[test]
fn day18_test_part1() {
    assert_eq!(22, Grid::from(TEST_INPUT_A, 12, 7).bfs().unwrap());
}

#[test]
fn day18_test_part2() {
    assert_eq!("6,1", Grid::find_blocker(TEST_INPUT_A, 7));
}

#[test]
fn day18_open_and_closed_grids() {
    assert_eq!(Some(12), Grid::from(TEST_INPUT_A, 0, 7).bfs());
    assert_eq!(None, Grid::from("0,1\n1,0", 2, 3).bfs());
    assert_eq!(Some(4), Grid::from("0,1\n1,0", 1, 3).bfs());
    assert_eq!(Some(0), Grid::from("", 0, 1).bfs());
}
