use aoc2024::day17::{part1, part2, run_program, Bit, BitVec, Regfile, Simulator};

const TEST_INPUT_A: &str = "\
    Register A: 729\n\
    Register B: 0\n\
    Register C: 0\n\
    \n\
    Program: 0,1,5,4,3,0";

const TEST_INPUT_B: &str = "\
    Register A: 2024\n\
    Register B: 0\n\
    Register C: 0\n\
    \n\
    Program: 0,3,5,4,3,0";

#[test]
fn day17_test_part1() {
    assert_eq!("4,6,3,5,6,3,5,2,1,0", part1(TEST_INPUT_A));
}

#[test]
fn day17_test_part2() {
    assert_eq!(Some(117440), part2(TEST_INPUT_B));
}

#[test]
fn day17_found_value_prints_program() {
    let sim = Simulator::from(TEST_INPUT_B);
    let a = sim.find_a().unwrap();
    let start = Regfile { a: a as u64, b: 0, c: 0, pc: 0 };
    assert_eq!(Some(vec![0u8, 3, 5, 4, 3, 0]), run_program(&sim.program, start));
}

#[test]
fn day17_found_value_is_smallest() {
    // A program that prints A mod 8 and shifts A down by one bit each turn.
    let input = "Register A: 0\nRegister B: 0\nRegister C: 0\n\nProgram: 0,1,5,4,3,0";
    let sim = Simulator::from(input);
    let found = sim.find_a();
    let mut smallest = None;
    for a in 0u64..(1 << 20) {
        let start = Regfile { a, b: 0, c: 0, pc: 0 };
        if run_program(&sim.program, start) == Some(sim.program_str.clone()) {
            smallest = Some(a as u128);
            break;
        }
    }
    assert_eq!(smallest, found);
    let sim = Simulator::from(TEST_INPUT_B);
    for a in 0u64..117440 {
        let start = Regfile { a, b: 0, c: 0, pc: 0 };
        assert_ne!(Some(sim.program_str.clone()), run_program(&sim.program, start));
    }
}

#[test]
fn day17_concrete_run_with_registers() {
    let input = "Register A: 10\nRegister B: 0\nRegister C: 0\n\nProgram: 5,0,5,1,5,4";
    assert_eq!("0,1,2", part1(input));
    let input = "Register A: 0\nRegister B: 29\nRegister C: 0\n\nProgram: 1,7";
    let sim = Simulator::from(input);
    assert_eq!(29, sim.regfile.b);
    assert_eq!(Some(vec![]), sim.exec());
    let input = "Register A: 0\nRegister B: 2024\nRegister C: 43690\n\nProgram: 4,0,5,5";
    assert_eq!("2", part1(input));
}

#[test]
fn day17_xor_of_same_unknown_is_zero() {
    let mut x = BitVec::from_const(0);
    x.bits[0] = Bit::A(5);
    x.bits[1] = Bit::AInv(9);
    let r = x.xor(&x).unwrap();
    assert!(r.bits.iter().all(|b| *b == Bit::Zero));
    let mut y = BitVec::from_const(0);
    y.bits[0] = Bit::AInv(5);
    let r = x.xor(&y).unwrap();
    assert_eq!(Bit::One, r.bits[0]);
    assert_eq!(Bit::AInv(9), r.bits[1]);
}

#[test]
fn day17_xor_of_different_unknowns_is_blocked() {
    let mut x = BitVec::from_const(0);
    let mut y = BitVec::from_const(0);
    x.bits[3] = Bit::A(12);
    y.bits[3] = Bit::A(7);
    assert_eq!(Err(7), x.xor(&y).map(|v| v.bits));
    x.bits[3] = Bit::AInv(4);
    assert_eq!(Err(4), x.xor(&y).map(|v| v.bits));
    let one = BitVec::from_const(1);
    let mut z = BitVec::from_const(0);
    z.bits[0] = Bit::A(3);
    assert_eq!(Bit::AInv(3), z.xor(&one).unwrap().bits[0]);
}

#[test]
fn day17_shift_by_unknown_amount_is_blocked() {
    let a = BitVec::from_const(0b1011_0000);
    let mut amount = BitVec::from_const(0);
    amount.bits[1] = Bit::A(17);
    assert_eq!(Err(17), a.shift_right(&amount).map(|v| v.bits));
    amount.bits[6] = Bit::AInv(2);
    assert_eq!(Err(2), a.shift_right(&amount).map(|v| v.bits));
    let shifted = a.shift_right(&BitVec::from_const(4)).unwrap();
    assert_eq!(BitVec::from_const(0b1011).bits, shifted.bits);
    assert_eq!(Ok(11), shifted.export());
    assert_eq!(Ok(255), BitVec::from_const(1 << 100).export());
}

#[test]
fn day17_mask_keeps_low_bits() {
    let mut x = BitVec::from_const(0b1111_0110);
    x.bits[0] = Bit::A(1);
    let m = x.mask7();
    assert_eq!(Bit::A(1), m.bits[0]);
    assert_eq!(Bit::One, m.bits[1]);
    assert_eq!(Bit::One, m.bits[2]);
    assert!(m.bits[3..].iter().all(|b| *b == Bit::Zero));
}
