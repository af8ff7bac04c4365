use aoc2024::day23::part1;

const TEST_INPUT: &str = "\
    kh-tc\nqp-kh\nde-cg\nka-co\nyn-aq\nqp-ub\ncg-tb\nvc-aq\n\
    tb-ka\nwh-tc\nyn-cg\nkh-ub\nta-co\nde-co\ntc-td\ntb-wq\n\
    wh-td\nta-ka\ntd-qp\naq-cg\nwq-ub\nub-vc\nde-ta\nwq-aq\n\
    wq-vc\nwh-yn\nka-de\nkh-ta\nco-tc\nwh-qp\ntb-vc\ntd-yn";

#[test]
fn day23_test_part1() {
    assert_eq!(7, part1(TEST_INPUT));
}

#[test]
fn day23_small_networks() {
    assert_eq!(1, part1("ta-bb\nbb-cc\ncc-ta"));
    assert_eq!(0, part1("aa-bb\nbb-cc\ncc-aa"));
    assert_eq!(0, part1("ta-bb\nbb-cc"));
    assert_eq!(0, part1(""));
}
