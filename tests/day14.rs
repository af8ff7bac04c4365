use aoc2024::day14::{part2, quad_prod_vec};

const TEST_INPUT: &str = "\
    p=0,4 v=3,-3\n\
    p=6,3 v=-1,-3\n\
    p=10,3 v=-1,2\n\
    p=2,0 v=2,-1\n\
    p=0,0 v=1,3\n\
    p=3,0 v=-2,-2\n\
    p=7,6 v=-1,-3\n\
    p=3,0 v=-1,-2\n\
    p=9,3 v=2,3\n\
    p=7,3 v=-1,2\n\
    p=2,4 v=2,-3\n\
    p=9,5 v=-3,-3";

#[test]
fn day14_test_part1() {
    assert_eq!(12, quad_prod_vec(TEST_INPUT, 11, 7));
}

#[test]
fn day14_row_of_robots() {
    let row: Vec<String> = (0..10).map(|x| format!("p={},5 v=0,0", x)).collect();
    assert_eq!(Some(0), part2(&row.join("\n")));
    let moving: Vec<String> = (0..10).map(|x| format!("p={},5 v=0,{}", x, x)).collect();
    assert_eq!(Some(0), part2(&moving.join("\n")));
    let late: Vec<String> = (0..10).map(|x| format!("p={},{} v=0,1", x, 100 - x)).collect();
    assert_eq!(None, part2(&late.join("\n")));
    assert_eq!(None, part2("p=0,0 v=1,1"));
}
