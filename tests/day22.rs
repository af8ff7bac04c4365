use aoc2024::day22::{advance, part1, part2};

#[test]
fn day22_test_part1() {
    assert_eq!(8685429, part1("1"));
    assert_eq!(4700978, part1("10"));
    assert_eq!(15273692, part1("100"));
    assert_eq!(8667524, part1("2024"));
    assert_eq!(37327623, part1("1\n10\n100\n2024"));
}

#[test]
fn day22_test_part2() {
    assert_eq!(23, part2("1\n2\n3\n2024"));
}

#[test]
fn day22_secret_sequence() {
    let expected = [15887950u32, 16495136, 527345, 704524, 1553684, 12683156, 11100544, 12249484, 7753432, 5908254];
    let mut v = 123u32;
    for e in expected {
        v = advance(v);
        assert_eq!(e, v);
    }
    assert_eq!(0, part1(""));
    assert_eq!(0, part2(""));
}
