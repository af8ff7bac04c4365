//! A three-register machine with eight instructions, run on concrete values,
//! and run on symbolic bits to search for the smallest initial register A that
//! makes a program print itself.
use vstd::prelude::*;
use vstd::string::StringSliceAdditionalSpecFns;
use crate::text::{lines, lines_of, numbers, numbers_of, fits_u64, is_digit};

verus! {

/// Width of a symbolic register, in bits.
pub const WIDTH: usize = 128;

/// One bit of a symbolic register: known, or tied to bit `i` of the unknown
/// initial value of register A, possibly inverted.
#[derive(Clone, Copy, PartialEq, Eq, Debug, Structural)]
pub enum Bit {
    A(u8),
    AInv(u8),
    Zero,
    One,
}

/// The unknown input bit that `b` is tied to, if any.
pub open spec fn tag(b: Bit) -> Option<u8> {
    match b {
        Bit::A(i) => Some(i),
        Bit::AInv(i) => Some(i),
        _ => None,
    }
}

impl Bit {
    pub open spec fn spec_inv(self) -> Bit {
        match self {
            Bit::A(i) => Bit::AInv(i),
            Bit::AInv(i) => Bit::A(i),
            Bit::Zero => Bit::One,
            Bit::One => Bit::Zero,
        }
    }

    /// The complement of this bit.
    pub fn inv(&self) -> (r: Bit)
        ensures
            r == self.spec_inv(),
    {
        match self {
            Bit::A(i) => Bit::AInv(*i),
            Bit::AInv(i) => Bit::A(*i),
            Bit::Zero => Bit::One,
            Bit::One => Bit::Zero,
        }
    }
}

pub open spec fn min_u8(x: u8, y: u8) -> u8 {
    if x <= y { x } else { y }
}

/// XOR of two symbolic bits. Two bits tied to different unknown bits cannot
/// be represented: the smaller of the two indices blocks the operation.
pub open spec fn xor_bit(x: Bit, y: Bit) -> Result<Bit, u8> {
    match (x, y) {
        (Bit::Zero, _) => Ok(y),
        (_, Bit::Zero) => Ok(x),
        (Bit::One, _) => Ok(y.spec_inv()),
        (_, Bit::One) => Ok(x.spec_inv()),
        (Bit::A(i), Bit::A(j)) => if i == j { Ok(Bit::Zero) } else { Err(min_u8(i, j)) },
        (Bit::AInv(i), Bit::AInv(j)) => if i == j { Ok(Bit::Zero) } else { Err(min_u8(i, j)) },
        (Bit::A(i), Bit::AInv(j)) => if i == j { Ok(Bit::One) } else { Err(min_u8(i, j)) },
        (Bit::AInv(i), Bit::A(j)) => if i == j { Ok(Bit::One) } else { Err(min_u8(i, j)) },
    }
}

/// XOR of the first `n` positions of `s` and `t`; the lowest position that
/// cannot be represented decides the error.
pub open spec fn xor_prefix(s: Seq<Bit>, t: Seq<Bit>, n: nat) -> Result<Seq<Bit>, u8>
    decreases n,
{
    if n == 0 {
        Ok(seq![])
    } else {
        match xor_prefix(s, t, (n - 1) as nat) {
            Err(e) => Err(e),
            Ok(p) => match xor_bit(s[n - 1], t[n - 1]) {
                Err(e) => Err(e),
                Ok(b) => Ok(p.push(b)),
            },
        }
    }
}

/// Once a prefix fails, every longer prefix fails the same way.
pub proof fn lemma_xor_err_stays(s: Seq<Bit>, t: Seq<Bit>, n: nat, m: nat)
    requires
        n <= m,
        xor_prefix(s, t, n) is Err,
    ensures
        xor_prefix(s, t, m) == xor_prefix(s, t, n),
    decreases m - n,
{
    if n < m {
        lemma_xor_err_stays(s, t, n, (m - 1) as nat);
    }
}

/// XOR of two symbolic bits.
pub fn xor_bits(x: Bit, y: Bit) -> (r: Result<Bit, u8>)
    ensures
        r == xor_bit(x, y),
{
    match (x, y) {
        (Bit::Zero, _) => Ok(y),
        (_, Bit::Zero) => Ok(x),
        (Bit::One, _) => Ok(y.inv()),
        (_, Bit::One) => Ok(x.inv()),
        (Bit::A(i), Bit::A(j)) | (Bit::AInv(i), Bit::AInv(j)) => {
            if i == j { Ok(Bit::Zero) } else if i <= j { Err(i) } else { Err(j) }
        },
        (Bit::A(i), Bit::AInv(j)) | (Bit::AInv(i), Bit::A(j)) => {
            if i == j { Ok(Bit::One) } else if i <= j { Err(i) } else { Err(j) }
        },
    }
}

/// The tag of the highest of the first `n` positions of `s` that is tied to
/// an unknown bit.
pub open spec fn highest_unknown(s: Seq<Bit>, n: nat) -> Option<u8>
    decreases n,
{
    if n == 0 {
        None
    } else {
        match tag(s[n - 1]) {
            Some(t) => Some(t),
            None => highest_unknown(s, (n - 1) as nat),
        }
    }
}

pub open spec fn bit_value(b: Bit) -> nat {
    if b == Bit::One { 1 } else { 0 }
}

/// The number that positions `i..` of `s` spell, lowest position first.
pub open spec fn value_from(s: Seq<Bit>, i: nat) -> nat
    decreases s.len() - i,
{
    if i >= s.len() {
        0
    } else {
        bit_value(s[i as int]) + 2 * value_from(s, i + 1)
    }
}

pub open spec fn cap_u8(v: nat) -> u8 {
    if v > 255 { 255 } else { v as u8 }
}

/// The concrete value of `s` saturated at 255, or the highest unknown bit.
pub open spec fn export_spec(s: Seq<Bit>) -> Result<u8, u8> {
    match highest_unknown(s, s.len()) {
        Some(t) => Err(t),
        None => Ok(cap_u8(value_from(s, 0))),
    }
}

/// `s` moved `n` positions towards bit 0, filled with zeros from the top.
pub open spec fn shr_seq(s: Seq<Bit>, n: nat) -> Seq<Bit> {
    Seq::new(s.len(), |k: int| if k + n < s.len() { s[k + n] } else { Bit::Zero })
}

/// The lowest three positions of `s`; the others zero.
pub open spec fn mask_seq(s: Seq<Bit>) -> Seq<Bit> {
    Seq::new(s.len(), |k: int| if k < 3 { s[k] } else { Bit::Zero })
}

/// The bits of `v`, lowest first, as known bits.
pub open spec fn const_seq(v: u128) -> Seq<Bit> {
    Seq::new(WIDTH as nat, |k: int| if (v as nat / pow2_of(k as nat)) % 2 == 1 { Bit::One } else { Bit::Zero })
}

/// A symbolic register of `WIDTH` bits, lowest first.
#[derive(Debug)]
pub struct BitVec {
    pub bits: Vec<Bit>,
}

impl View for BitVec {
    type V = Seq<Bit>;

    open spec fn view(&self) -> Seq<Bit> {
        self.bits@
    }
}

impl BitVec {
    pub open spec fn wf(&self) -> bool {
        self@.len() == WIDTH
    }

    /// A register that holds `val`.
    pub fn from_const(val: u128) -> (r: BitVec)
        ensures
            r.wf(),
            r@ == const_seq(val),
    {
        let mut bits: Vec<Bit> = Vec::new();
        let mut cur: u128 = val;
        let mut k: usize = 0;
        assert(pow2_of(0) == 1);
        while k < WIDTH
            invariant
                k <= WIDTH,
                cur == val as nat / pow2_of(k as nat),
                bits@ == const_seq(val).take(k as int),
            decreases WIDTH - k,
        {
            let b = if cur % 2 == 1 { Bit::One } else { Bit::Zero };
            bits.push(b);
            proof {
                lemma_pow2_positive(k as nat);
                vstd::arithmetic::div_mod::lemma_div_denominator(val as int, pow2_of(k as nat) as int, 2);
                assert(pow2_of(k as nat + 1) == pow2_of(k as nat) * 2);
            }
            cur = cur / 2;
            k = k + 1;
            assert(bits@ == const_seq(val).take(k as int));
        }
        assert(bits@ == const_seq(val));
        BitVec { bits }
    }

    /// A copy of `s`.
    pub fn from_seq(s: &Vec<Bit>) -> (r: BitVec)
        ensures
            r@ == s@,
    {
        let mut bits: Vec<Bit> = Vec::new();
        let mut k: usize = 0;
        while k < s.len()
            invariant
                k <= s@.len(),
                bits@ == s@.take(k as int),
            decreases s@.len() - k,
        {
            bits.push(s[k]);
            k = k + 1;
            assert(bits@ == s@.take(k as int));
        }
        assert(bits@ == s@);
        BitVec { bits }
    }

    /// The value of a fully known register, saturated at 255; otherwise the
    /// index of its highest unknown bit.
    pub fn export(&self) -> (r: Result<u8, u8>)
        requires
            self.wf(),
        ensures
            r == export_spec(self@),
    {
        let ghost s = self@;
        let mut val: u8 = 0;
        let mut i: usize = WIDTH;
        while i > 0
            invariant
                i <= WIDTH,
                s.len() == WIDTH,
                s == self@,
                highest_unknown(s, WIDTH as nat) == highest_unknown(s, i as nat),
                val == cap_u8(value_from(s, i as nat)),
            decreases i,
        {
            let b = self.bits[i - 1];
            match b {
                Bit::A(t) => {
                    return Err(t);
                },
                Bit::AInv(t) => {
                    return Err(t);
                },
                _ => {},
            }
            let one: u8 = if b == Bit::One { 1 } else { 0 };
            assert(value_from(s, (i - 1) as nat) == bit_value(b) + 2 * value_from(s, i as nat));
            if val > 127 {
                val = 255;
            } else {
                val = val * 2 + one;
            }
            i = i - 1;
        }
        Ok(val)
    }

    /// This register moved towards bit 0 by the value of `shift`; the highest
    /// unknown bit of `shift` when that value is not known.
    pub fn shift_right(&self, shift: &BitVec) -> (r: Result<BitVec, u8>)
        requires
            self.wf(),
            shift.wf(),
        ensures
            match export_spec(shift@) {
                Err(t) => r == Err::<BitVec, u8>(t),
                Ok(n) => r matches Ok(v) && v@ == shr_seq(self@, n as nat) && v.wf(),
            },
    {
        let n = shift.export()?;
        let n = n as usize;
        let mut bits: Vec<Bit> = Vec::new();
        let mut k: usize = 0;
        while k < WIDTH
            invariant
                k <= WIDTH,
                n <= 255,
                self.wf(),
                bits@ == shr_seq(self@, n as nat).take(k as int),
            decreases WIDTH - k,
        {
            let b = if k + n < WIDTH { self.bits[k + n] } else { Bit::Zero };
            bits.push(b);
            k = k + 1;
            assert(bits@ == shr_seq(self@, n as nat).take(k as int));
        }
        assert(bits@ == shr_seq(self@, n as nat));
        Ok(BitVec { bits })
    }

    /// Position-wise XOR with `op`; the smaller index of the lowest pair of
    /// bits tied to different unknown bits when that cannot be represented.
    pub fn xor(&self, op: &BitVec) -> (r: Result<BitVec, u8>)
        requires
            self.wf(),
            op.wf(),
        ensures
            match xor_prefix(self@, op@, WIDTH as nat) {
                Err(t) => r == Err::<BitVec, u8>(t),
                Ok(s) => r matches Ok(v) && v@ == s && v.wf(),
            },
    {
        let mut bits: Vec<Bit> = Vec::new();
        let mut k: usize = 0;
        while k < WIDTH
            invariant
                k <= WIDTH,
                self.wf(),
                op.wf(),
                xor_prefix(self@, op@, k as nat) == Ok::<Seq<Bit>, u8>(bits@),
                bits@.len() == k,
            decreases WIDTH - k,
        {
            let b = match xor_bits(self.bits[k], op.bits[k]) {
                Ok(b) => b,
                Err(t) => {
                    proof {
                        lemma_xor_err_stays(self@, op@, (k + 1) as nat, WIDTH as nat);
                    }
                    return Err(t);
                },
            };
            bits.push(b);
            k = k + 1;
        }
        Ok(BitVec { bits })
    }

    /// The lowest three bits of this register; the others zero.
    pub fn mask7(&self) -> (r: BitVec)
        requires
            self.wf(),
        ensures
            r.wf(),
            r@ == mask_seq(self@),
    {
        let mut bits: Vec<Bit> = Vec::new();
        let mut k: usize = 0;
        while k < WIDTH
            invariant
                k <= WIDTH,
                self.wf(),
                bits@ == mask_seq(self@).take(k as int),
            decreases WIDTH - k,
        {
            let b = if k < 3 { self.bits[k] } else { Bit::Zero };
            bits.push(b);
            k = k + 1;
            assert(bits@ == mask_seq(self@).take(k as int));
        }
        assert(bits@ == mask_seq(self@));
        BitVec { bits }
    }
}

/// Concrete registers and program counter.
#[derive(Clone, Copy, PartialEq, Eq, Debug, Structural)]
pub struct Regfile {
    pub a: u64,
    pub b: u64,
    pub c: u64,
    pub pc: usize,
}

/// Symbolic registers and program counter.
#[derive(Debug)]
pub struct BitRegfile {
    pub a: BitVec,
    pub b: BitVec,
    pub c: BitVec,
    pub pc: usize,
}

impl BitRegfile {
    pub open spec fn wf(&self) -> bool {
        self.a.wf() && self.b.wf() && self.c.wf()
    }
}

/// `a` divided by two to the power `k`. The machine computes with numbers,
/// so a shift by 64 places or more is no overflow: it leaves 0, as the
/// division does.
pub open spec fn shr_u64(a: u64, k: u64) -> u64 {
    if k >= 64 { 0 } else { a >> k }
}

fn shift_u64(a: u64, k: u64) -> (r: u64)
    ensures
        r == shr_u64(a, k),
{
    if k >= 64 { 0 } else { a >> k }
}

/// An operand that stands for a small number or for a register.
#[derive(Clone, Copy, PartialEq, Eq, Debug, Structural)]
pub enum ComboOperand {
    L0,
    L1,
    L2,
    L3,
    RegA,
    RegB,
    RegC,
    Rsv,
}

impl ComboOperand {
    pub open spec fn spec_from(d: u8) -> ComboOperand {
        if d == 0 { ComboOperand::L0 }
        else if d == 1 { ComboOperand::L1 }
        else if d == 2 { ComboOperand::L2 }
        else if d == 3 { ComboOperand::L3 }
        else if d == 4 { ComboOperand::RegA }
        else if d == 5 { ComboOperand::RegB }
        else if d == 6 { ComboOperand::RegC }
        else { ComboOperand::Rsv }
    }

    /// The operand that digit `d` encodes.
    pub fn from(d: u8) -> (r: ComboOperand)
        requires
            d < 8,
        ensures
            r == Self::spec_from(d),
    {
        match d {
            0 => ComboOperand::L0,
            1 => ComboOperand::L1,
            2 => ComboOperand::L2,
            3 => ComboOperand::L3,
            4 => ComboOperand::RegA,
            5 => ComboOperand::RegB,
            6 => ComboOperand::RegC,
            _ => ComboOperand::Rsv,
        }
    }

    /// The value the operand stands for; none for the reserved one.
    pub open spec fn spec_load(self, rf: Regfile) -> Option<u64> {
        match self {
            ComboOperand::L0 => Some(0),
            ComboOperand::L1 => Some(1),
            ComboOperand::L2 => Some(2),
            ComboOperand::L3 => Some(3),
            ComboOperand::RegA => Some(rf.a),
            ComboOperand::RegB => Some(rf.b),
            ComboOperand::RegC => Some(rf.c),
            ComboOperand::Rsv => None,
        }
    }

    pub fn load(&self, rf: &Regfile) -> (r: Option<u64>)
        ensures
            r == self.spec_load(*rf),
    {
        match self {
            ComboOperand::L0 => Some(0),
            ComboOperand::L1 => Some(1),
            ComboOperand::L2 => Some(2),
            ComboOperand::L3 => Some(3),
            ComboOperand::RegA => Some(rf.a),
            ComboOperand::RegB => Some(rf.b),
            ComboOperand::RegC => Some(rf.c),
            ComboOperand::Rsv => None,
        }
    }

    /// The symbolic value the operand stands for in the registers `st`; none
    /// for the reserved one.
    pub open spec fn combo_bits(self, st: BitState) -> Option<Seq<Bit>> {
        match self {
            ComboOperand::L0 => Some(const_seq(0)),
            ComboOperand::L1 => Some(const_seq(1)),
            ComboOperand::L2 => Some(const_seq(2)),
            ComboOperand::L3 => Some(const_seq(3)),
            ComboOperand::RegA => Some(st.0),
            ComboOperand::RegB => Some(st.1),
            ComboOperand::RegC => Some(st.2),
            ComboOperand::Rsv => None,
        }
    }

    /// The symbolic value the operand stands for; none for the reserved one.
    pub open spec fn spec_load_bits(self, rf: &BitRegfile) -> Option<Seq<Bit>> {
        self.combo_bits(bit_state(rf))
    }

    pub fn load_bits(&self, rf: &BitRegfile) -> (r: Option<BitVec>)
        requires
            rf.wf(),
        ensures
            match self.spec_load_bits(rf) {
                Some(s) => r matches Some(v) && v@ == s && v.wf(),
                None => r is None,
            },
    {
        match self {
            ComboOperand::L0 => Some(BitVec::from_const(0)),
            ComboOperand::L1 => Some(BitVec::from_const(1)),
            ComboOperand::L2 => Some(BitVec::from_const(2)),
            ComboOperand::L3 => Some(BitVec::from_const(3)),
            ComboOperand::RegA => Some(BitVec::from_seq(&rf.a.bits)),
            ComboOperand::RegB => Some(BitVec::from_seq(&rf.b.bits)),
            ComboOperand::RegC => Some(BitVec::from_seq(&rf.c.bits)),
            ComboOperand::Rsv => None,
        }
    }
}

/// An operand that stands for the number 0 to 7 it names.
#[derive(Clone, Copy, PartialEq, Eq, Debug, Structural)]
pub enum LiteralOperand {
    L0,
    L1,
    L2,
    L3,
    L4,
    L5,
    L6,
    L7,
}

impl LiteralOperand {
    pub open spec fn spec_load(self) -> u64 {
        match self {
            LiteralOperand::L0 => 0,
            LiteralOperand::L1 => 1,
            LiteralOperand::L2 => 2,
            LiteralOperand::L3 => 3,
            LiteralOperand::L4 => 4,
            LiteralOperand::L5 => 5,
            LiteralOperand::L6 => 6,
            LiteralOperand::L7 => 7,
        }
    }

    /// The operand that digit `d` encodes.
    pub fn from(d: u8) -> (r: LiteralOperand)
        requires
            d < 8,
        ensures
            r == lit_of(d),
            r.spec_load() == d,
    {
        match d {
            0 => LiteralOperand::L0,
            1 => LiteralOperand::L1,
            2 => LiteralOperand::L2,
            3 => LiteralOperand::L3,
            4 => LiteralOperand::L4,
            5 => LiteralOperand::L5,
            6 => LiteralOperand::L6,
            _ => LiteralOperand::L7,
        }
    }

    pub fn load(&self) -> (r: u64)
        ensures
            r == self.spec_load(),
    {
        match self {
            LiteralOperand::L0 => 0,
            LiteralOperand::L1 => 1,
            LiteralOperand::L2 => 2,
            LiteralOperand::L3 => 3,
            LiteralOperand::L4 => 4,
            LiteralOperand::L5 => 5,
            LiteralOperand::L6 => 6,
            LiteralOperand::L7 => 7,
        }
    }

    pub fn load_bits(&self) -> (r: BitVec)
        ensures
            r.wf(),
            r@ == const_seq(self.spec_load() as u128),
    {
        BitVec::from_const(self.load() as u128)
    }
}

/// One decoded instruction.
#[derive(Clone, Copy, PartialEq, Eq, Debug, Structural)]
pub enum Instruction {
    Adv(ComboOperand),
    Bxl(LiteralOperand),
    Bst(ComboOperand),
    Jnz(LiteralOperand),
    Bxc,
    Out(ComboOperand),
    Bdv(ComboOperand),
    Cdv(ComboOperand),
}

/// `rf` with register A replaced.
pub open spec fn with_a(rf: Regfile, a: u64) -> Regfile {
    Regfile { a, b: rf.b, c: rf.c, pc: rf.pc }
}

pub open spec fn with_b(rf: Regfile, b: u64) -> Regfile {
    Regfile { a: rf.a, b, c: rf.c, pc: rf.pc }
}

pub open spec fn with_c(rf: Regfile, c: u64) -> Regfile {
    Regfile { a: rf.a, b: rf.b, c, pc: rf.pc }
}

pub open spec fn with_pc(rf: Regfile, pc: int) -> Regfile {
    Regfile { a: rf.a, b: rf.b, c: rf.c, pc: pc as usize }
}

impl Instruction {
    pub open spec fn spec_from(i: u8, o: u8) -> Instruction {
        if i == 0 { Instruction::Adv(ComboOperand::spec_from(o)) }
        else if i == 1 { Instruction::Bxl(lit_of(o)) }
        else if i == 2 { Instruction::Bst(ComboOperand::spec_from(o)) }
        else if i == 3 { Instruction::Jnz(lit_of(o)) }
        else if i == 4 { Instruction::Bxc }
        else if i == 5 { Instruction::Out(ComboOperand::spec_from(o)) }
        else if i == 6 { Instruction::Bdv(ComboOperand::spec_from(o)) }
        else { Instruction::Cdv(ComboOperand::spec_from(o)) }
    }

    /// Decodes opcode digit `i` with operand digit `o`.
    pub fn from(i: u8, o: u8) -> (r: Instruction)
        requires
            i < 8,
            o < 8,
        ensures
            r == Self::spec_from(i, o),
    {
        match i {
            0 => Instruction::Adv(ComboOperand::from(o)),
            1 => Instruction::Bxl(LiteralOperand::from(o)),
            2 => Instruction::Bst(ComboOperand::from(o)),
            3 => Instruction::Jnz(LiteralOperand::from(o)),
            4 => Instruction::Bxc,
            5 => Instruction::Out(ComboOperand::from(o)),
            6 => Instruction::Bdv(ComboOperand::from(o)),
            _ => Instruction::Cdv(ComboOperand::from(o)),
        }
    }

    /// One concrete step from `rf`, whose program counter is first moved past
    /// this instruction: the new registers and the digit printed, or none on
    /// the reserved operand.
    pub open spec fn spec_exec(self, rf: Regfile) -> Option<(Regfile, Option<u8>)> {
        let next = with_pc(rf, rf.pc + 2);
        match self {
            Instruction::Adv(o) => match o.spec_load(rf) {
                Some(v) => Some((with_a(next, shr_u64(rf.a, v)), None)),
                None => None,
            },
            Instruction::Bxl(o) => Some((with_b(next, rf.b ^ o.spec_load()), None)),
            Instruction::Bst(o) => match o.spec_load(rf) {
                Some(v) => Some((with_b(next, v % 8), None)),
                None => None,
            },
            Instruction::Jnz(o) => if rf.a != 0 {
                Some((with_pc(rf, o.spec_load() as int), None))
            } else {
                Some((next, None))
            },
            Instruction::Bxc => Some((with_b(next, rf.b ^ rf.c), None)),
            Instruction::Out(o) => match o.spec_load(rf) {
                Some(v) => Some((next, Some((v % 8) as u8))),
                None => None,
            },
            Instruction::Bdv(o) => match o.spec_load(rf) {
                Some(v) => Some((with_b(next, shr_u64(rf.a, v)), None)),
                None => None,
            },
            Instruction::Cdv(o) => match o.spec_load(rf) {
                Some(v) => Some((with_c(next, shr_u64(rf.a, v)), None)),
                None => None,
            },
        }
    }

    /// Runs this instruction on `rf`; the digit it prints, if any. `None` as
    /// the outer value when it reads the reserved operand; `rf` is then left
    /// as it was.
    pub fn exec(&self, rf: &mut Regfile) -> (r: Option<Option<u8>>)
        requires
            old(rf).pc + 2 <= usize::MAX,
        ensures
            match self.spec_exec(*old(rf)) {
                Some((next, out)) => r == Some(out) && *final(rf) == next,
                None => r is None && *final(rf) == *old(rf),
            },
    {
        let pc = rf.pc + 2;
        match self {
            Instruction::Adv(o) => {
                let v = o.load(rf)?;
                rf.a = shift_u64(rf.a, v);
                rf.pc = pc;
            },
            Instruction::Bxl(o) => {
                rf.b = rf.b ^ o.load();
                rf.pc = pc;
            },
            Instruction::Bst(o) => {
                let v = o.load(rf)?;
                rf.b = v % 8;
                rf.pc = pc;
            },
            Instruction::Jnz(o) => {
                if rf.a != 0 {
                    rf.pc = o.load() as usize;
                } else {
                    rf.pc = pc;
                }
            },
            Instruction::Bxc => {
                rf.b = rf.b ^ rf.c;
                rf.pc = pc;
            },
            Instruction::Out(o) => {
                let v = o.load(rf)?;
                rf.pc = pc;
                return Some(Some((v % 8) as u8));
            },
            Instruction::Bdv(o) => {
                let v = o.load(rf)?;
                rf.b = shift_u64(rf.a, v);
                rf.pc = pc;
            },
            Instruction::Cdv(o) => {
                let v = o.load(rf)?;
                rf.c = shift_u64(rf.a, v);
                rf.pc = pc;
            },
        }
        Some(None)
    }
}

pub open spec fn lit_of(d: u8) -> LiteralOperand {
    if d == 0 { LiteralOperand::L0 }
    else if d == 1 { LiteralOperand::L1 }
    else if d == 2 { LiteralOperand::L2 }
    else if d == 3 { LiteralOperand::L3 }
    else if d == 4 { LiteralOperand::L4 }
    else if d == 5 { LiteralOperand::L5 }
    else if d == 6 { LiteralOperand::L6 }
    else { LiteralOperand::L7 }
}

/// Why a symbolic step could not be taken.
#[derive(Clone, Copy, PartialEq, Eq, Debug, Structural)]
pub enum Blocked {
    /// The step needs the value of this unknown input bit.
    Unknown(u8),
    /// The step reads the reserved operand.
    Reserved,
}

/// Symbolic registers A, B, C and the program counter, as values.
pub type BitState = (Seq<Bit>, Seq<Bit>, Seq<Bit>, int);

pub open spec fn bit_state(rf: &BitRegfile) -> BitState {
    (rf.a@, rf.b@, rf.c@, rf.pc as int)
}

/// `a` moved down by the value of `amount`.
pub open spec fn shr_by(a: Seq<Bit>, amount: Option<Seq<Bit>>) -> Result<Seq<Bit>, Blocked> {
    match amount {
        None => Err(Blocked::Reserved),
        Some(n) => match export_spec(n) {
            Err(t) => Err(Blocked::Unknown(t)),
            Ok(k) => Ok(shr_seq(a, k as nat)),
        },
    }
}

pub open spec fn xor_regs(x: Seq<Bit>, y: Seq<Bit>) -> Result<Seq<Bit>, Blocked> {
    match xor_prefix(x, y, WIDTH as nat) {
        Err(t) => Err(Blocked::Unknown(t)),
        Ok(v) => Ok(v),
    }
}

impl Instruction {
    /// One symbolic step from `rf`: the next registers and the three bits
    /// printed, if any. A jump is always taken: the caller decides about
    /// the loop.
    pub open spec fn step_bits(self, st: BitState) -> Result<(BitState, Option<(Bit, Bit, Bit)>), Blocked> {
        let (a, b, c, pc) = st;
        let next = pc + 2;
        match self {
            Instruction::Adv(o) => match shr_by(a, o.combo_bits(st)) {
                Err(e) => Err(e),
                Ok(v) => Ok(((v, b, c, next), None)),
            },
            Instruction::Bxl(o) => match xor_regs(b, const_seq(o.spec_load() as u128)) {
                Err(e) => Err(e),
                Ok(v) => Ok(((a, v, c, next), None)),
            },
            Instruction::Bst(o) => match o.combo_bits(st) {
                None => Err(Blocked::Reserved),
                Some(v) => Ok(((a, mask_seq(v), c, next), None)),
            },
            Instruction::Jnz(o) => Ok(((a, b, c, o.spec_load() as int), None)),
            Instruction::Bxc => match xor_regs(b, c) {
                Err(e) => Err(e),
                Ok(v) => Ok(((a, v, c, next), None)),
            },
            Instruction::Out(o) => match o.combo_bits(st) {
                None => Err(Blocked::Reserved),
                Some(v) => Ok(((a, b, c, next), Some((v[0], v[1], v[2])))),
            },
            Instruction::Bdv(o) => match shr_by(a, o.combo_bits(st)) {
                Err(e) => Err(e),
                Ok(v) => Ok(((a, v, c, next), None)),
            },
            Instruction::Cdv(o) => match shr_by(a, o.combo_bits(st)) {
                Err(e) => Err(e),
                Ok(v) => Ok(((a, b, v, next), None)),
            },
        }
    }

    /// One symbolic step from `rf`.
    pub open spec fn spec_exec_bits(self, rf: &BitRegfile) -> Result<(BitState, Option<(Bit, Bit, Bit)>), Blocked> {
        self.step_bits(bit_state(rf))
    }

    /// Runs this instruction on symbolic registers; the three lowest bits
    /// printed, if any. The program counter moves past the instruction
    /// first; a blocked step changes no register.
    #[verifier::rlimit(80)]
    pub fn exec_brf(&self, rf: &mut BitRegfile) -> (r: Result<Option<(Bit, Bit, Bit)>, Blocked>)
        requires
            old(rf).wf(),
            old(rf).pc + 2 <= usize::MAX,
        ensures
            match self.spec_exec_bits(old(rf)) {
                Ok((st, out)) => r == Ok::<Option<(Bit, Bit, Bit)>, Blocked>(out) && bit_state(final(rf)) == st
                    && final(rf).wf(),
                Err(e) => r == Err::<Option<(Bit, Bit, Bit)>, Blocked>(e) && final(rf).a@ == old(rf).a@ && final(rf).b@
                    == old(rf).b@ && final(rf).c@ == old(rf).c@ && final(rf).pc == old(rf).pc + 2 && final(rf).wf(),
            },
    {
        let pc = rf.pc + 2;
        rf.pc = pc;
        match self {
            Instruction::Adv(o) => {
                let n = match o.load_bits(rf) {
                    Some(n) => n,
                    None => return Err(Blocked::Reserved),
                };
                match rf.a.shift_right(&n) {
                    Ok(v) => { rf.a = v; },
                    Err(t) => return Err(Blocked::Unknown(t)),
                }
                rf.pc = pc;
            },
            Instruction::Bxl(o) => {
                match rf.b.xor(&o.load_bits()) {
                    Ok(v) => { rf.b = v; },
                    Err(t) => return Err(Blocked::Unknown(t)),
                }
                rf.pc = pc;
            },
            Instruction::Bst(o) => {
                let v = match o.load_bits(rf) {
                    Some(v) => v,
                    None => return Err(Blocked::Reserved),
                };
                rf.b = v.mask7();
                rf.pc = pc;
            },
            Instruction::Jnz(o) => {
                rf.pc = o.load() as usize;
            },
            Instruction::Bxc => {
                match rf.b.xor(&rf.c) {
                    Ok(v) => { rf.b = v; },
                    Err(t) => return Err(Blocked::Unknown(t)),
                }
                rf.pc = pc;
            },
            Instruction::Out(o) => {
                let v = match o.load_bits(rf) {
                    Some(v) => v,
                    None => return Err(Blocked::Reserved),
                };
                rf.pc = pc;
                return Ok(Some((v.bits[0], v.bits[1], v.bits[2])));
            },
            Instruction::Bdv(o) => {
                let n = match o.load_bits(rf) {
                    Some(n) => n,
                    None => return Err(Blocked::Reserved),
                };
                match rf.a.shift_right(&n) {
                    Ok(v) => { rf.b = v; },
                    Err(t) => return Err(Blocked::Unknown(t)),
                }
                rf.pc = pc;
            },
            Instruction::Cdv(o) => {
                let n = match o.load_bits(rf) {
                    Some(n) => n,
                    None => return Err(Blocked::Reserved),
                };
                match rf.a.shift_right(&n) {
                    Ok(v) => { rf.c = v; },
                    Err(t) => return Err(Blocked::Unknown(t)),
                }
                rf.pc = pc;
            },
        }
        Ok(None)
    }
}

/// The most steps a concrete run takes before it is given up.
pub const STEP_LIMIT: u64 = 0xffff_ffff_ffff_ffff;

/// The digits that `prog` prints when run from `rf` until the program counter
/// leaves the program, within `fuel` steps; none when it faults or runs out.
pub open spec fn run(prog: Seq<Instruction>, rf: Regfile, fuel: nat) -> Option<Seq<u8>>
    decreases fuel,
{
    if rf.pc >= prog.len() {
        Some(seq![])
    } else if fuel == 0 {
        None
    } else {
        match prog[rf.pc as int].spec_exec(rf) {
            None => None,
            Some((next, out)) => match run(prog, next, (fuel - 1) as nat) {
                None => None,
                Some(rest) => Some(
                    match out {
                        Some(d) => seq![d] + rest,
                        None => rest,
                    },
                ),
            },
        }
    }
}

pub open spec fn after(done: Seq<u8>, rest: Option<Seq<u8>>) -> Option<Seq<u8>> {
    match rest {
        Some(r) => Some(done + r),
        None => None,
    }
}

/// The digits that `prog` prints from `start`, or none when it faults or
/// takes more than `STEP_LIMIT` steps.
pub fn run_program(prog: &Vec<Instruction>, start: Regfile) -> (r: Option<Vec<u8>>)
    requires
        prog@.len() < usize::MAX,
    ensures
        match run(prog@, start, STEP_LIMIT as nat) {
            Some(o) => r matches Some(v) && v@ == o,
            None => r is None,
        },
{
    let mut rf = start;
    let mut out: Vec<u8> = Vec::new();
    let mut fuel: u64 = STEP_LIMIT;
    while rf.pc < prog.len()
        invariant
            prog@.len() < usize::MAX,
            run(prog@, start, STEP_LIMIT as nat) == after(out@, run(prog@, rf, fuel as nat)),
        decreases fuel,
    {
        if fuel == 0 {
            return None;
        }
        let ghost before = rf;
        match prog[rf.pc].exec(&mut rf) {
            None => {
                return None;
            },
            Some(o) => {
                match o {
                    Some(d) => {
                        proof {
                            match run(prog@, rf, (fuel - 1) as nat) {
                                Some(rest) => {
                                    assert(out@.push(d) + rest == out@ + (seq![d] + rest));
                                },
                                None => {},
                            }
                        }
                        out.push(d);
                    },
                    None => {},
                }
            },
        }
        fuel = fuel - 1;
    }
    assert(out@ + seq![] == out@);
    Some(out)
}

/// The digit values of the digits in `s`, in order.
pub open spec fn digits_of(s: Seq<u8>) -> Seq<u8>
    decreases s.len(),
{
    if s.len() == 0 {
        seq![]
    } else if is_digit(s.last()) {
        digits_of(s.drop_last()).push((s.last() - 48) as u8)
    } else {
        digits_of(s.drop_last())
    }
}

/// The instructions of a program given as digits: each digit is decoded with
/// the one after it, so that instruction `k` is the one that a program
/// counter of `k` reads.
pub open spec fn decode(d: Seq<u8>) -> Seq<Instruction> {
    Seq::new((d.len() - 1) as nat, |k: int| Instruction::spec_from(d[k], d[k + 1]))
}

/// Three register lines, each with a number that fits in 64 bits, a fourth
/// line, and a program line of at least one digit, each from 0 to 7.
pub open spec fn well_formed(s: Seq<u8>) -> bool {
    let ls = lines_of(s);
    &&& ls.len() >= 5
    &&& forall|i: int| 0 <= i < 3 ==> fits_u64(#[trigger] ls[i]) && numbers_of(ls[i]).len() >= 1
    &&& digits_of(ls[4]).len() >= 1
    &&& forall|k: int| 0 <= k < digits_of(ls[4]).len() ==> #[trigger] digits_of(ls[4])[k] < 8
}

pub open spec fn register_of(s: Seq<u8>, i: int) -> u64 {
    numbers_of(lines_of(s)[i])[0] as u64
}

/// The registers that the text `s` gives, with the program counter at 0.
pub open spec fn start_of(s: Seq<u8>) -> Regfile {
    Regfile { a: register_of(s, 0), b: register_of(s, 1), c: register_of(s, 2), pc: 0 }
}

/// The digits of the program that the text `s` gives.
pub open spec fn program_of(s: Seq<u8>) -> Seq<u8> {
    digits_of(lines_of(s)[4])
}

/// A program with its registers.
pub struct Simulator {
    pub regfile: Regfile,
    pub program: Vec<Instruction>,
    pub program_str: Vec<u8>,
}

fn first_number(line: &Vec<u8>) -> (r: u64)
    requires
        fits_u64(line@),
        numbers_of(line@).len() >= 1,
    ensures
        r as nat == numbers_of(line@)[0],
{
    let ns = numbers(line.as_slice());
    ns[0]
}

fn digits(line: &Vec<u8>) -> (r: Vec<u8>)
    ensures
        r@ == digits_of(line@),
{
    let mut r: Vec<u8> = Vec::new();
    let mut i: usize = 0;
    while i < line.len()
        invariant
            i <= line@.len(),
            r@ == digits_of(line@.take(i as int)),
        decreases line@.len() - i,
    {
        assert(line@.take(i as int + 1).drop_last() == line@.take(i as int));
        let c = line[i];
        if 48 <= c && c <= 57 {
            r.push(c - 48);
        }
        i = i + 1;
    }
    assert(line@.take(i as int) == line@);
    r
}

impl Simulator {
    pub open spec fn wf(&self) -> bool {
        &&& self.program_str@.len() >= 1
        &&& self.program@.len() < usize::MAX
        &&& self.program@ == decode(self.program_str@)
        &&& forall|k: int| 0 <= k < self.program_str@.len() ==> #[trigger] self.program_str@[k] < 8
    }

    /// Reads the registers and the program from the puzzle text.
    pub fn from(input: &str) -> (r: Simulator)
        requires
            well_formed(input.spec_bytes()),
        ensures
            r.wf(),
            r.regfile == start_of(input.spec_bytes()),
            r.program_str@ == program_of(input.spec_bytes()),
    {
        let ls = lines(input.as_bytes());
        let a = first_number(&ls[0]);
        let b = first_number(&ls[1]);
        let c = first_number(&ls[2]);
        let program_str = digits(&ls[4]);
        let mut program: Vec<Instruction> = Vec::new();
        let n = program_str.len();
        let mut k: usize = 0;
        while k < n - 1
            invariant
                n == program_str@.len(),
                program_str@ == program_of(input.spec_bytes()),
                well_formed(input.spec_bytes()),
                k < program_str@.len(),
                program@ == decode(program_str@).take(k as int),
            decreases program_str@.len() - k,
        {
            assert(program_str@[k as int] < 8);
            assert(program_str@[k as int + 1] < 8);
            program.push(Instruction::from(program_str[k], program_str[k + 1]));
            k = k + 1;
            assert(program@ == decode(program_str@).take(k as int));
        }
        assert(program@ == decode(program_str@));
        Simulator { regfile: Regfile { a, b, c, pc: 0 }, program, program_str }
    }

    /// The digits the program prints from its registers; none when it faults
    /// or takes more than `STEP_LIMIT` steps.
    pub fn exec(&self) -> (r: Option<Vec<u8>>)
        requires
            self.wf(),
        ensures
            match run(self.program@, self.regfile, STEP_LIMIT as nat) {
                Some(o) => r matches Some(v) && v@ == o,
                None => r is None,
            },
    {
        run_program(&self.program, self.regfile)
    }
}

fn same_bits(x: &Vec<Bit>, y: &Vec<Bit>) -> (r: bool)
    ensures
        r == (x@ == y@),
{
    if x.len() != y.len() {
        return false;
    }
    let mut i: usize = 0;
    while i < x.len()
        invariant
            x@.len() == y@.len(),
            i <= x@.len(),
            forall|k: int| 0 <= k < i ==> x@[k] == y@[k],
        decreases x@.len() - i,
    {
        if x[i] != y[i] {
            return false;
        }
        i = i + 1;
    }
    assert(x@ == y@);
    true
}

pub open spec fn known(b: Bit) -> bool {
    b == Bit::Zero || b == Bit::One
}

proof fn lemma_value_bound(s: Seq<Bit>, i: nat)
    requires
        i <= s.len(),
    ensures
        value_from(s, i) < pow2_of((s.len() - i) as nat),
    decreases s.len() - i,
{
    if i < s.len() {
        lemma_value_bound(s, i + 1);
    }
}

pub open spec fn pow2_of(n: nat) -> nat
    decreases n,
{
    if n == 0 { 1 } else { 2 * pow2_of((n - 1) as nat) }
}

proof fn lemma_pow2_step(n: nat)
    ensures
        pow2_of(n + 16) == 65536 * pow2_of(n),
{
    reveal_with_fuel(pow2_of, 17);
}

proof fn lemma_pow2_128()
    ensures
        pow2_of(128) == 0x1_0000_0000_0000_0000_0000_0000_0000_0000,
{
    lemma_pow2_step(0);
    lemma_pow2_step(16);
    lemma_pow2_step(32);
    lemma_pow2_step(48);
    lemma_pow2_step(64);
    lemma_pow2_step(80);
    lemma_pow2_step(96);
    lemma_pow2_step(112);
    assert(pow2_of(0) == 1);
}

proof fn lemma_pow2_positive(n: nat)
    ensures
        pow2_of(n) >= 1,
    decreases n,
{
    if n > 0 {
        lemma_pow2_positive((n - 1) as nat);
    }
}

proof fn lemma_pow2_monotone(a: nat, b: nat)
    requires
        a <= b,
    ensures
        pow2_of(a) <= pow2_of(b),
    decreases b,
{
    if a < b {
        lemma_pow2_monotone(a, (b - 1) as nat);
    }
}

/// The number whose bits are the known ones of `a`, lowest first; bits not
/// known count as zero.
fn pinned_value(a: &Vec<Bit>) -> (r: u128)
    requires
        a@.len() == WIDTH,
    ensures
        r == value_from(a@, 0),
{
    proof {
        lemma_pow2_128();
    }
    let mut res: u128 = 0;
    let mut i: usize = WIDTH;
    while i > 0
        invariant
            a@.len() == WIDTH,
            i <= WIDTH,
            res == value_from(a@, i as nat),
            pow2_of(128) == 0x1_0000_0000_0000_0000_0000_0000_0000_0000,
        decreases i,
    {
        proof {
            lemma_value_bound(a@, (i - 1) as nat);
            lemma_pow2_monotone((WIDTH - (i - 1)) as nat, 128);
        }
        let one: u128 = if a[i - 1] == Bit::One { 1 } else { 0 };
        res = res * 2 + one;
        i = i - 1;
    }
    res
}

proof fn lemma_consistent_update(x: u128, old: Seq<Bit>, p: int, v: Bit)
    requires
        known(v),
        0 <= p < old.len(),
        old[p] == v || !known(old[p]),
    ensures
        consistent(x, old.update(p, v)) <==> (consistent(x, old) && const_seq(x)[p] == v),
{
    let new = old.update(p, v);
    if consistent(x, new) {
        assert forall|i: int| 0 <= i < old.len() && known(#[trigger] old[i]) implies const_seq(x)[i] == old[i] by {
            assert(known(new[i]));
        }
        assert(known(new[p]));
    }
    if consistent(x, old) && const_seq(x)[p] == v {
        assert forall|i: int| 0 <= i < new.len() && known(#[trigger] new[i]) implies const_seq(x)[i] == new[i] by {
            if i != p {
                assert(known(old[i]));
            }
        }
    }
}

proof fn lemma_consistent_pinned(x: u128, p: Seq<Bit>, a: Seq<Bit>)
    requires
        pinned_from(p, a),
        consistent(x, p),
    ensures
        consistent(x, a),
{
    assert forall|i: int| 0 <= i < a.len() && known(#[trigger] a[i]) implies const_seq(x)[i] == a[i] by {
        assert(p[i] == a[i] || (!known(a[i]) && known(p[i])));
        assert(known(p[i]));
    }
}

proof fn lemma_pinned_trans(p: Seq<Bit>, q: Seq<Bit>, a: Seq<Bit>)
    requires
        pinned_from(p, q),
        pinned_from(q, a),
    ensures
        pinned_from(p, a),
{
    assert forall|i: int| 0 <= i < a.len() implies #[trigger] p[i] == a[i] || (!known(a[i]) && known(p[i])) by {
        assert(p[i] == q[i] || (!known(q[i]) && known(p[i])));
        assert(q[i] == a[i] || (!known(a[i]) && known(q[i])));
    }
}

/// Pins unknown input bit `p` of `a` to `v` (`Bit::Zero` or `Bit::One`);
/// false when it is already pinned the other way.
fn pin(a: &mut Vec<Bit>, p: u8, v: Bit) -> (ok: bool)
    requires
        pins_ok(old(a)@),
        known(v),
        (p as int) < WIDTH,
    ensures
        pins_ok(final(a)@),
        ok ==> final(a)@ == old(a)@.update(p as int, v) && (old(a)@[p as int] == v || !known(old(a)@[p as int])),
        !ok ==> final(a)@ == old(a)@ && known(old(a)@[p as int]) && old(a)@[p as int] != v,
{
    let i = p as usize;
    let clash = if v == Bit::Zero { Bit::One } else { Bit::Zero };
    if a[i] == clash {
        return false;
    }
    a.set(i, v);
    proof {
        assert forall|j: int| 0 <= j < WIDTH implies #[trigger] a@[j] == Bit::A(j as u8) || known(a@[j]) by {
            if j != i {
                assert(old(a)@[j] == Bit::A(j as u8) || known(old(a)@[j]));
            }
        }
    }
    true
}

/// Whether printed bit `got` can equal `want` (0 or 1), pinning the unknown
/// bit it is tied to where that decides it. The values that agree with the
/// new `a` are those that agree with the old one and make `got` equal
/// `want`.
fn match_bit(a: &mut Vec<Bit>, want: u8, got: Bit) -> (ok: bool)
    requires
        pins_ok(old(a)@),
        match tag(got) {
            Some(t) => (t as int) < WIDTH,
            None => true,
        },
    ensures
        pins_ok(final(a)@),
        ok ==> pinned_from(final(a)@, old(a)@),
        ok ==> forall|x: u128| #[trigger] consistent(x, final(a)@) <==> (consistent(x, old(a)@) && eval_bit(got, const_seq(x)) == want_bit(want)),
        !ok ==> forall|x: u128| #[trigger] consistent(x, old(a)@) ==> eval_bit(got, const_seq(x)) != want_bit(want),
{
    let ghost before = a@;
    let w = if want == 0 { Bit::Zero } else { Bit::One };
    match got {
        Bit::Zero | Bit::One => {
            assert(forall|x: u128| eval_bit(got, const_seq(x)) == got);
            assert(pinned_from(a@, before));
            got == w
        },
        Bit::A(p) => {
            let ok = pin(a, p, w);
            proof {
                assert forall|x: u128| eval_bit(got, const_seq(x)) == const_seq(x)[p as int] by {}
                if ok {
                    assert forall|x: u128| #[trigger] consistent(x, a@) <==> (consistent(x, before) && eval_bit(got, const_seq(x)) == want_bit(want)) by {
                        lemma_consistent_update(x, before, p as int, w);
                    }
                } else {
                    assert forall|x: u128| #[trigger] consistent(x, before) implies eval_bit(got, const_seq(x)) != want_bit(want) by {
                        assert(known(before[p as int]));
                    }
                }
            }
            ok
        },
        Bit::AInv(p) => {
            let w2 = if want == 0 { Bit::One } else { Bit::Zero };
            let ok = pin(a, p, w2);
            proof {
                assert forall|x: u128| #[trigger] eval_bit(got, const_seq(x)) == want_bit(want) <==> const_seq(x)[p as int] == w2 by {}
                if ok {
                    assert forall|x: u128| #[trigger] consistent(x, a@) <==> (consistent(x, before) && eval_bit(got, const_seq(x)) == want_bit(want)) by {
                        lemma_consistent_update(x, before, p as int, w2);
                    }
                } else {
                    assert forall|x: u128| #[trigger] consistent(x, before) implies eval_bit(got, const_seq(x)) != want_bit(want) by {
                        assert(known(before[p as int]));
                    }
                }
            }
            ok
        },
    }
}

/// The symbolic run of `prog` from the registers `rf` with register A
/// holding `x` prints `digits` and reaches a jump right after the last one,
/// within `STEP_LIMIT` steps; a jump is always taken.
pub open spec fn accepts(prog: Seq<Instruction>, digits: Seq<u8>, rf: Regfile, x: u128) -> bool {
    outcome(
        prog,
        digits,
        (const_seq(x), const_seq(rf.b as u128), const_seq(rf.c as u128), rf.pc as int),
        0,
        STEP_LIMIT as nat,
    )
}

/// `v` is the smallest value of register A that the symbolic run accepts.
pub open spec fn least_accepted(prog: Seq<Instruction>, digits: Seq<u8>, rf: Regfile, v: u128) -> bool {
    accepts(prog, digits, rf, v) && forall|w: u128| #[trigger] accepts(prog, digits, rf, w) ==> v <= w
}

/// A concrete run from register A holding `v` prints exactly `digits`.
pub open spec fn round_trip(prog: Seq<Instruction>, digits: Seq<u8>, rf: Regfile, v: u128) -> bool {
    v <= u64::MAX && run(prog, with_a(rf, v as u64), STEP_LIMIT as nat) == Some(digits)
}

impl Simulator {
    /// The registers the symbolic run starts from when register A holds `x`.
    pub open spec fn start_bits(&self, x: u128) -> BitState {
        (const_seq(x), const_seq(self.regfile.b as u128), const_seq(self.regfile.c as u128), self.regfile.pc as int)
    }

    /// The run from register A holding `x` prints the program's own digits
    /// and reaches a jump right after the last one, within `STEP_LIMIT`
    /// steps; a jump is always taken.
    pub open spec fn accepted(&self, x: u128) -> bool {
        accepts(self.program@, self.program_str@, self.regfile, x)
    }

    /// `x` agrees with the bits `a` knows, and is accepted.
    pub open spec fn solves(&self, x: u128, a: Seq<Bit>) -> bool {
        consistent(x, a) && self.accepted(x)
    }

    /// The smallest value of register A that agrees with the bits that `a`
    /// knows and makes the run print the program's own digits and reach its
    /// jump right after the last one; none when no value does. Bits that the
    /// printed digits decide are pinned before any guess, and a guess tries
    /// zero before one. `depth` bounds the nesting of attempts: one more
    /// than the number of bits not known is enough.
    pub fn try_find_a(&self, a: &Vec<Bit>, depth: u32) -> (r: Option<u128>)
        requires
            self.wf(),
            pins_ok(a@),
            depth > unknown_count(a@),
        ensures
            r matches Some(v) ==> self.solves(v, a@) && forall|w: u128| #[trigger] self.solves(w, a@) ==> v <= w,
            r is None ==> forall|w: u128| !#[trigger] self.solves(w, a@),
        decreases depth,
    {
        let mut a_pop = BitVec::from_seq(a).bits;
        let mut brf = BitRegfile {
            a: BitVec::from_seq(a),
            b: BitVec::from_const(self.regfile.b as u128),
            c: BitVec::from_const(self.regfile.c as u128),
            pc: self.regfile.pc,
        };
        proof {
            assert forall|x: u128| consistent(x, a_pop@) implies #[trigger] self.accepted(x) == outcome(
                self.program@,
                self.program_str@,
                eval_state(bit_state(&brf), const_seq(x)),
                0,
                STEP_LIMIT as nat,
            ) by {
                lemma_eval_start(a@, x);
                lemma_const_eval(self.regfile.b as u128, const_seq(x));
                lemma_const_eval(self.regfile.c as u128, const_seq(x));
                assert(eval_state(bit_state(&brf), const_seq(x)) == self.start_bits(x));
            }
            assert forall|k: int| 0 <= k < a@.len() implies match tag(#[trigger] a@[k]) {
                Some(t) => (t as int) < a@.len() && a@[t as int] == Bit::A(t),
                None => true,
            } by {
                assert(a@[k] == Bit::A(k as u8) || known(a@[k]));
            }
            assert forall|v: u128| #[trigger] tags_ok(const_seq(v), a@) by {}
            assert(pinned_from(a_pop@, a@));
        }
        let mut offset: usize = 0;
        let mut steps: u64 = STEP_LIMIT;
        while brf.pc < self.program.len()
            invariant
                self.wf(),
                pins_ok(a@),
                depth > unknown_count(a@),
                pins_ok(a_pop@),
                pinned_from(a_pop@, a@),
                brf.wf(),
                state_tags_ok(bit_state(&brf), a@),
                forall|x: u128| consistent(x, a_pop@) ==> #[trigger] self.accepted(x) == outcome(
                    self.program@,
                    self.program_str@,
                    eval_state(bit_state(&brf), const_seq(x)),
                    offset as nat,
                    steps as nat,
                ),
                forall|x: u128| #[trigger] self.solves(x, a@) ==> consistent(x, a_pop@),
            decreases steps,
        {
            let ghost st = bit_state(&brf);
            let ghost a0 = a_pop@;
            let ghost steps0 = steps;
            if steps == 0 {
                proof {
                    assert forall|w: u128| !#[trigger] self.solves(w, a@) by {
                        if self.solves(w, a@) {
                            assert(consistent(w, a_pop@));
                        }
                    }
                }
                return None;
            }
            steps = steps - 1;
            let ins = self.program[brf.pc];
            proof {
                lemma_step_tags(ins, st, a@);
                assert forall|x: u128| consistent(x, a0) implies #[trigger] self.accepted(x) == outcome(
                    self.program@,
                    self.program_str@,
                    eval_state(st, const_seq(x)),
                    offset as nat,
                    steps0 as nat,
                ) by {}
            }
            match ins.exec_brf(&mut brf) {
                Err(Blocked::Reserved) => {
                    proof {
                        assert forall|w: u128| !#[trigger] self.solves(w, a@) by {
                            if self.solves(w, a@) {
                                assert(consistent(w, a0));
                                lemma_step_eval(ins, st, const_seq(w));
                            }
                        }
                    }
                    return None;
                },
                Err(Blocked::Unknown(b)) => {
                    if !same_bits(a, &a_pop) {
                        // Printed digits pinned more bits: start again with them.
                        proof {
                            lemma_count_pinned(a_pop@, a@);
                        }
                        let res = self.try_find_a(&a_pop, depth - 1);
                        proof {
                            assert forall|w: u128| #[trigger] self.solves(w, a@) == self.solves(w, a_pop@) by {
                                if self.solves(w, a_pop@) {
                                    lemma_consistent_pinned(w, a_pop@, a@);
                                }
                            }
                        }
                        return res;
                    }
                    let i = b as usize;
                    if i >= WIDTH || a_pop[i] == Bit::Zero || a_pop[i] == Bit::One {
                        return None;
                    }
                    a_pop.set(i, Bit::Zero);
                    let ghost zero = a_pop@;
                    proof {
                        assert(zero == a@.update(i as int, Bit::Zero));
                        assert(pins_ok(zero)) by {
                            assert forall|j: int| 0 <= j < WIDTH implies #[trigger] zero[j] == Bit::A(j as u8) || known(zero[j]) by {
                                if j != i {
                                    assert(a@[j] == Bit::A(j as u8) || known(a@[j]));
                                }
                            }
                        }
                        assert(pinned_from(zero, a@));
                        assert(zero[i as int] != a@[i as int]);
                        lemma_count_pinned(zero, a@);
                    }
                    let res1 = self.try_find_a(&a_pop, depth - 1);
                    a_pop.set(i, Bit::One);
                    let ghost one = a_pop@;
                    proof {
                        assert(one == a@.update(i as int, Bit::One));
                        assert(pins_ok(one)) by {
                            assert forall|j: int| 0 <= j < WIDTH implies #[trigger] one[j] == Bit::A(j as u8) || known(one[j]) by {
                                if j != i {
                                    assert(a@[j] == Bit::A(j as u8) || known(a@[j]));
                                }
                            }
                        }
                        assert(pinned_from(one, a@));
                        assert(one[i as int] != a@[i as int]);
                        lemma_count_pinned(one, a@);
                    }
                    let res2 = self.try_find_a(&a_pop, depth - 1);
                    proof {
                        assert forall|w: u128| #[trigger] self.solves(w, a@) == (self.solves(w, zero) || self.solves(w, one)) by {
                            lemma_consistent_update(w, a@, i as int, Bit::Zero);
                            lemma_consistent_update(w, a@, i as int, Bit::One);
                            assert(known(const_seq(w)[i as int]));
                        }
                    }
                    return match (res1, res2) {
                        (Some(r1), Some(r2)) => Some(if r1 <= r2 { r1 } else { r2 }),
                        (Some(r1), None) => Some(r1),
                        (None, Some(r2)) => Some(r2),
                        (None, None) => None,
                    };
                },
                Ok(Some(bits)) => {
                    proof {
                        assert forall|x: u128| consistent(x, a0) implies #[trigger] self.accepted(x) == (offset < self.program_str@.len()
                            && digit_matches(eval_out(Some(bits), const_seq(x))->Some_0, self.program_str@[offset as int])
                            && outcome(
                            self.program@,
                            self.program_str@,
                            eval_state(bit_state(&brf), const_seq(x)),
                            offset as nat + 1,
                            steps as nat,
                        )) by {
                            lemma_step_eval(ins, st, const_seq(x));
                        }
                    }
                    if offset >= self.program_str.len() {
                        proof {
                            assert forall|w: u128| !#[trigger] self.solves(w, a@) by {
                                if self.solves(w, a@) {
                                    assert(consistent(w, a0));
                                }
                            }
                        }
                        return None;
                    }
                    let digit = self.program_str[offset];
                    assert(tags_ok(seq![bits.0, bits.1, bits.2], a@));
                    assert(match tag(bits.0) { Some(t) => (t as int) < a@.len(), None => true }) by {
                        assert(seq![bits.0, bits.1, bits.2][0] == bits.0);
                    }
                    assert(match tag(bits.1) { Some(t) => (t as int) < a@.len(), None => true }) by {
                        assert(seq![bits.0, bits.1, bits.2][1] == bits.1);
                    }
                    assert(match tag(bits.2) { Some(t) => (t as int) < a@.len(), None => true }) by {
                        assert(seq![bits.0, bits.1, bits.2][2] == bits.2);
                    }
                    let ghost e0 = digit & 1;
                    let ghost e1 = (digit >> 1u8) & 1;
                    let ghost e2 = (digit >> 2u8) & 1;
                    let ok1 = match_bit(&mut a_pop, digit & 1, bits.0);
                    if !ok1 {
                        proof {
                            assert forall|w: u128| !#[trigger] self.solves(w, a@) by {
                                if self.solves(w, a@) {
                                    assert(consistent(w, a0));
                                }
                            }
                        }
                        return None;
                    }
                    let ghost a1 = a_pop@;
                    let ok2 = match_bit(&mut a_pop, (digit >> 1u8) & 1, bits.1);
                    if !ok2 {
                        proof {
                            assert forall|w: u128| !#[trigger] self.solves(w, a@) by {
                                if self.solves(w, a@) {
                                    assert(consistent(w, a0));
                                    assert(consistent(w, a1));
                                }
                            }
                        }
                        return None;
                    }
                    let ghost a2 = a_pop@;
                    let ok3 = match_bit(&mut a_pop, (digit >> 2u8) & 1, bits.2);
                    if !ok3 {
                        proof {
                            assert forall|w: u128| !#[trigger] self.solves(w, a@) by {
                                if self.solves(w, a@) {
                                    assert(consistent(w, a0));
                                    assert(consistent(w, a1));
                                    assert(consistent(w, a2));
                                }
                            }
                        }
                        return None;
                    }
                    proof {
                        lemma_pinned_trans(a_pop@, a2, a1);
                        lemma_pinned_trans(a_pop@, a1, a0);
                        lemma_pinned_trans(a_pop@, a0, a@);
                        assert forall|x: u128| #[trigger] consistent(x, a_pop@) <==> (consistent(x, a0) && digit_matches(
                            eval_out(Some(bits), const_seq(x))->Some_0,
                            digit,
                        )) by {
                            assert(consistent(x, a_pop@) == (consistent(x, a2) && eval_bit(bits.2, const_seq(x)) == want_bit(e2)));
                            assert(consistent(x, a2) == (consistent(x, a1) && eval_bit(bits.1, const_seq(x)) == want_bit(e1)));
                            assert(consistent(x, a1) == (consistent(x, a0) && eval_bit(bits.0, const_seq(x)) == want_bit(e0)));
                        }
                    }
                    offset = offset + 1;
                },
                Ok(None) => {
                    proof {
                        assert forall|x: u128| consistent(x, a0) implies #[trigger] self.accepted(x) == (if ins is Jnz && offset
                            == self.program_str@.len() {
                            true
                        } else {
                            outcome(
                                self.program@,
                                self.program_str@,
                                eval_state(bit_state(&brf), const_seq(x)),
                                offset as nat,
                                steps as nat,
                            )
                        }) by {
                            lemma_step_eval(ins, st, const_seq(x));
                        }
                    }
                    if let Instruction::Jnz(_) = ins {
                        if offset == self.program_str.len() {
                            let v = pinned_value(&a_pop);
                            proof {
                                lemma_pinned_value(a_pop@);
                                lemma_consistent_pinned(v, a_pop@, a@);
                                assert(self.accepted(v));
                            }
                            return Some(v);
                        }
                    }
                },
            }
        }
        proof {
            assert forall|w: u128| !#[trigger] self.solves(w, a@) by {
                if self.solves(w, a@) {
                    assert(consistent(w, a_pop@));
                }
            }
        }
        None
    }

    /// The smallest value of register A that the symbolic run accepts, when
    /// a concrete run from it prints the program's own digits; none when no
    /// value is accepted, or when the smallest one fails the concrete run.
    pub fn find_a(&self) -> (r: Option<u128>)
        requires
            self.wf(),
        ensures
            r matches Some(v) ==> least_accepted(self.program@, self.program_str@, self.regfile, v) && round_trip(
                self.program@,
                self.program_str@,
                self.regfile,
                v,
            ),
            r is None ==> forall|v: u128|
                #[trigger] least_accepted(self.program@, self.program_str@, self.regfile, v) ==> !round_trip(
                    self.program@,
                    self.program_str@,
                    self.regfile,
                    v,
                ),
    {
        let mut a: Vec<Bit> = Vec::new();
        let mut i: u8 = 0;
        while i < 128
            invariant
                i <= 128,
                a@.len() == i,
                forall|j: int| 0 <= j < i ==> #[trigger] a@[j] == Bit::A(j as u8),
            decreases 128 - i,
        {
            a.push(Bit::A(i));
            i = i + 1;
        }
        proof {
            lemma_count_le_len(a@);
            assert forall|x: u128| #[trigger] self.solves(x, a@) == self.accepted(x) by {
                assert forall|j: int| 0 <= j < a@.len() implies !known(#[trigger] a@[j]) by {}
            }
        }
        let found = self.try_find_a(&a, (WIDTH + 1) as u32);
        proof {
            assert forall|v: u128| #[trigger] least_accepted(self.program@, self.program_str@, self.regfile, v)
                <==> (self.solves(v, a@) && forall|w: u128| #[trigger] self.solves(w, a@) ==> v <= w) by {
                assert(self.solves(v, a@) == self.accepted(v));
                if least_accepted(self.program@, self.program_str@, self.regfile, v) {
                    assert forall|w: u128| #[trigger] self.solves(w, a@) implies v <= w by {
                        assert(self.solves(w, a@) == self.accepted(w));
                        assert(accepts(self.program@, self.program_str@, self.regfile, w));
                    }
                }
                if self.solves(v, a@) && forall|w: u128| #[trigger] self.solves(w, a@) ==> v <= w {
                    assert forall|w: u128| #[trigger] accepts(self.program@, self.program_str@, self.regfile, w) implies v <= w by {
                        assert(self.solves(w, a@) == self.accepted(w));
                        assert(self.solves(w, a@));
                    }
                }
            }
        }
        match found {
            Some(v) => {
                if v > 0xffff_ffff_ffff_ffff {
                    proof {
                        assert forall|u: u128| #[trigger] least_accepted(self.program@, self.program_str@, self.regfile, u) implies u == v by {
                            assert(self.solves(u, a@));
                            assert(self.solves(v, a@));
                        }
                    }
                    return None;
                }
                let start = Regfile {
                    a: v as u64,
                    b: self.regfile.b,
                    c: self.regfile.c,
                    pc: self.regfile.pc,
                };
                proof {
                    assert forall|u: u128| #[trigger] least_accepted(self.program@, self.program_str@, self.regfile, u) implies u == v by {
                        assert(self.solves(u, a@));
                        assert(self.solves(v, a@));
                    }
                    assert(start == with_a(self.regfile, v as u64));
                }
                match run_program(&self.program, start) {
                    Some(out) => {
                        if same_digits(&out, &self.program_str) {
                            Some(v)
                        } else {
                            None
                        }
                    },
                    None => None,
                }
            },
            None => None,
        }
    }
}

fn same_digits(x: &Vec<u8>, y: &Vec<u8>) -> (r: bool)
    ensures
        r == (x@ == y@),
{
    if x.len() != y.len() {
        return false;
    }
    let mut i: usize = 0;
    while i < x.len()
        invariant
            x@.len() == y@.len(),
            i <= x@.len(),
            forall|k: int| 0 <= k < i ==> x@[k] == y@[k],
        decreases x@.len() - i,
    {
        if x[i] != y[i] {
            return false;
        }
        i = i + 1;
    }
    assert(x@ == y@);
    true
}

/// The digits `d`, as decimal characters separated by commas.
pub open spec fn joined(d: Seq<u8>) -> Seq<char>
    decreases d.len(),
{
    if d.len() == 0 {
        seq![]
    } else if d.len() == 1 {
        seq![(d[0] + 48) as char]
    } else {
        joined(d.drop_last()) + seq![',', (d.last() + 48) as char]
    }
}

fn digit_str(d: u8) -> (r: &'static str)
    requires
        d < 8,
    ensures
        r@ == seq![(d + 48) as char],
{
    proof {
        reveal_strlit("0");
        reveal_strlit("1");
        reveal_strlit("2");
        reveal_strlit("3");
        reveal_strlit("4");
        reveal_strlit("5");
        reveal_strlit("6");
        reveal_strlit("7");
    }
    match d {
        0 => "0",
        1 => "1",
        2 => "2",
        3 => "3",
        4 => "4",
        5 => "5",
        6 => "6",
        _ => "7",
    }
}

/// The digits, separated by commas.
pub fn join_digits(d: &Vec<u8>) -> (r: String)
    requires
        forall|k: int| 0 <= k < d@.len() ==> #[trigger] d@[k] < 8,
    ensures
        r@ == joined(d@),
{
    let mut out = String::new();
    let mut i: usize = 0;
    while i < d.len()
        invariant
            i <= d@.len(),
            forall|k: int| 0 <= k < d@.len() ==> #[trigger] d@[k] < 8,
            out@ == joined(d@.take(i as int)),
        decreases d@.len() - i,
    {
        assert(d@.take(i as int + 1).drop_last() == d@.take(i as int));
        let ghost prev = out@;
        let ghost ch = (d@[i as int] + 48) as char;
        if i > 0 {
            out.append(",");
        }
        out.append(digit_str(d[i]));
        proof {
            reveal_strlit(",");
            if i > 0 {
                assert(out@ =~= prev + seq![',', ch]);
            } else {
                assert(out@ =~= seq![ch]);
            }
        }
        i = i + 1;
        assert(out@ == joined(d@.take(i as int)));
    }
    assert(d@.take(i as int) == d@);
    out
}

/// The digits printed by running the program that `input` gives, from the
/// registers it gives, separated by commas.
pub fn part1(input: &str) -> (r: String)
    requires
        well_formed(input.spec_bytes()),
        run(decode(program_of(input.spec_bytes())), start_of(input.spec_bytes()), STEP_LIMIT as nat) is Some,
    ensures
        r@ == joined(run(decode(program_of(input.spec_bytes())), start_of(input.spec_bytes()), STEP_LIMIT as nat)->Some_0),
{
    let sim = Simulator::from(input);
    let out = sim.exec();
    match out {
        Some(d) => {
            proof {
                lemma_run_digits(sim.program@, sim.regfile, STEP_LIMIT as nat);
            }
            join_digits(&d)
        },
        None => String::new(),
    }
}

/// The smallest value of register A that the search finds under which the
/// program that `input` gives prints its own digits; only a value for which
/// a concrete run does so is returned.
pub fn part2(input: &str) -> (r: Option<u128>)
    requires
        well_formed(input.spec_bytes()),
    ensures
        ({
            let s = input.spec_bytes();
            let prog = decode(program_of(s));
            &&& r matches Some(v) ==> least_accepted(prog, program_of(s), start_of(s), v) && round_trip(
                prog,
                program_of(s),
                start_of(s),
                v,
            )
            &&& r is None ==> forall|v: u128|
                #[trigger] least_accepted(prog, program_of(s), start_of(s), v) ==> !round_trip(prog, program_of(s), start_of(s), v)
        }),
{
    let sim = Simulator::from(input);
    sim.find_a()
}

/// Every digit a run prints is below 8.
pub proof fn lemma_run_digits(prog: Seq<Instruction>, rf: Regfile, fuel: nat)
    ensures
        run(prog, rf, fuel) matches Some(o) ==> forall|k: int| 0 <= k < o.len() ==> #[trigger] o[k] < 8,
    decreases fuel,
{
    if rf.pc < prog.len() && fuel > 0 {
        match prog[rf.pc as int].spec_exec(rf) {
            Some((next, out)) => {
                lemma_run_digits(prog, next, (fuel - 1) as nat);
                match run(prog, next, (fuel - 1) as nat) {
                    Some(rest) => {
                        match out {
                            Some(d) => {
                                assert forall|k: int| 0 <= k < (seq![d] + rest).len() implies #[trigger] (seq![d] + rest)[k] < 8 by {
                                    if k > 0 {
                                        assert((seq![d] + rest)[k] == rest[k - 1]);
                                    }
                                }
                            },
                            None => {},
                        }
                    },
                    None => {},
                }
            },
            None => {},
        }
    }
}

/// A run from `rf` stops within `fuel` steps: the program counter leaves the
/// program, or a step faults.
pub open spec fn stops_within(prog: Seq<Instruction>, rf: Regfile, fuel: nat) -> bool
    decreases fuel,
{
    if rf.pc >= prog.len() {
        true
    } else if fuel == 0 {
        false
    } else {
        match prog[rf.pc as int].spec_exec(rf) {
            None => true,
            Some((next, _)) => stops_within(prog, next, (fuel - 1) as nat),
        }
    }
}

pub open spec fn has_jump(prog: Seq<Instruction>) -> bool {
    exists|k: int| 0 <= k < prog.len() && #[trigger] prog[k] matches Instruction::Jnz(_)
}

/// With register A at zero the jump is never taken and A stays zero, so a run
/// stops within as many steps as the program has instructions.
pub proof fn lemma_stops_when_a_is_zero(prog: Seq<Instruction>, rf: Regfile, fuel: nat)
    requires
        rf.a == 0,
        prog.len() < usize::MAX,
        fuel + rf.pc >= prog.len(),
    ensures
        stops_within(prog, rf, fuel),
    decreases fuel,
{
    if rf.pc < prog.len() {
        match prog[rf.pc as int].spec_exec(rf) {
            Some((next, _)) => {
                assert(forall|v: u64| #[trigger] shr_u64(0, v) == 0) by {
                    assert(forall|v: u64| v < 64 ==> #[trigger] (0u64 >> v) == 0) by (bit_vector);
                }
                assert(next.a == 0 && next.pc == rf.pc + 2);
                lemma_stops_when_a_is_zero(prog, next, (fuel - 1) as nat);
            },
            None => {},
        }
    }
}

/// A program without a jump stops within as many steps as it has
/// instructions, whatever the registers hold.
pub proof fn lemma_stops_without_jump(prog: Seq<Instruction>, rf: Regfile, fuel: nat)
    requires
        !has_jump(prog),
        prog.len() < usize::MAX,
        fuel + rf.pc >= prog.len(),
    ensures
        stops_within(prog, rf, fuel),
    decreases fuel,
{
    if rf.pc < prog.len() {
        assert(!(prog[rf.pc as int] matches Instruction::Jnz(_)));
        match prog[rf.pc as int].spec_exec(rf) {
            Some((next, _)) => {
                assert(next.pc == rf.pc + 2);
                lemma_stops_without_jump(prog, next, (fuel - 1) as nat);
            },
            None => {},
        }
    }
}

/// A run that stops within the step limit and does not fault prints what
/// `run` gives: the limit does not cut it short.
pub proof fn lemma_stops_then_runs(prog: Seq<Instruction>, rf: Regfile, fuel: nat, more: nat)
    requires
        stops_within(prog, rf, fuel),
        fuel <= more,
    ensures
        run(prog, rf, fuel) == run(prog, rf, more),
    decreases fuel,
{
    if rf.pc < prog.len() {
        match prog[rf.pc as int].spec_exec(rf) {
            Some((next, _)) => {
                lemma_stops_then_runs(prog, next, (fuel - 1) as nat, (more - 1) as nat);
            },
            None => {},
        }
    }
}

/// XOR of two bits tied to the same unknown bit with the same polarity is a
/// known zero; with opposite polarity a known one. Tied to different unknown
/// bits, it is blocked on the smaller index.
pub proof fn lemma_xor_same_unknown(i: u8, j: u8)
    ensures
        xor_bit(Bit::A(i), Bit::A(j)) == (if i == j { Ok::<Bit, u8>(Bit::Zero) } else { Err(min_u8(i, j)) }),
        xor_bit(Bit::AInv(i), Bit::AInv(j)) == (if i == j { Ok::<Bit, u8>(Bit::Zero) } else { Err(min_u8(i, j)) }),
        xor_bit(Bit::A(i), Bit::AInv(j)) == (if i == j { Ok::<Bit, u8>(Bit::One) } else { Err(min_u8(i, j)) }),
        xor_bit(Bit::AInv(i), Bit::A(j)) == (if i == j { Ok::<Bit, u8>(Bit::One) } else { Err(min_u8(i, j)) }),
{
}

/// A register XORed with itself is known zero throughout, whatever unknown
/// bits it is tied to.
pub proof fn lemma_xor_self_is_zero(s: Seq<Bit>, n: nat)
    requires
        n <= s.len(),
    ensures
        xor_prefix(s, s, n) == Ok::<Seq<Bit>, u8>(Seq::new(n, |k: int| Bit::Zero)),
    decreases n,
{
    if n > 0 {
        lemma_xor_self_is_zero(s, (n - 1) as nat);
        assert(xor_bit(s[n - 1], s[n - 1]) == Ok::<Bit, u8>(Bit::Zero));
        assert(Seq::new((n - 1) as nat, |k: int| Bit::Zero).push(Bit::Zero) =~= Seq::new(n, |k: int| Bit::Zero));
    } else {
        assert(Seq::new(0, |k: int| Bit::Zero) =~= seq![]);
    }
}

/// When any of the first `n` positions of `s` is tied to an unknown bit, the
/// highest such position decides: its index is what comes back.
pub proof fn lemma_unknown_surfaces(s: Seq<Bit>, n: nat, k: int)
    requires
        n <= s.len(),
        0 <= k < n,
        tag(s[k]) is Some,
    ensures
        highest_unknown(s, n) is Some,
        exists|j: int| k <= j < n && tag(s[j]) == highest_unknown(s, n) && #[trigger] s[j] == s[j],
    decreases n,
{
    if k < n - 1 && tag(s[n - 1]) is None {
        lemma_unknown_surfaces(s, (n - 1) as nat, k);
    } else {
        assert(s[n - 1] == s[n - 1]);
    }
}

/// A shift whose amount has an unknown bit is blocked on an unknown bit of the
/// amount, never carried out as if that bit were zero.
pub proof fn lemma_shift_blocked(a: Seq<Bit>, amount: Seq<Bit>, k: int)
    requires
        0 <= k < amount.len(),
        tag(amount[k]) is Some,
    ensures
        export_spec(amount) is Err,
        exists|j: int| 0 <= j < amount.len() && Err::<u8, u8>(tag(amount[j])->Some_0) == export_spec(amount)
            && #[trigger] amount[j] == amount[j],
        shr_by(a, Some(amount)) == Err::<Seq<Bit>, Blocked>(Blocked::Unknown(export_spec(amount)->Err_0)),
{
    lemma_unknown_surfaces(amount, amount.len(), k);
}

/// The bit that `b` stands for once the unknown bits take the values `w`.
pub open spec fn eval_bit(b: Bit, w: Seq<Bit>) -> Bit {
    match b {
        Bit::A(i) => if (i as int) < w.len() { w[i as int] } else { Bit::Zero },
        Bit::AInv(i) => if (i as int) < w.len() { w[i as int].spec_inv() } else { Bit::One },
        _ => b,
    }
}

pub open spec fn eval_seq(s: Seq<Bit>, w: Seq<Bit>) -> Seq<Bit> {
    Seq::new(s.len(), |k: int| eval_bit(s[k], w))
}

pub open spec fn eval_state(st: BitState, w: Seq<Bit>) -> BitState {
    (eval_seq(st.0, w), eval_seq(st.1, w), eval_seq(st.2, w), st.3)
}

pub open spec fn eval_out(o: Option<(Bit, Bit, Bit)>, w: Seq<Bit>) -> Option<(Bit, Bit, Bit)> {
    match o {
        Some((x, y, z)) => Some((eval_bit(x, w), eval_bit(y, w), eval_bit(z, w))),
        None => None,
    }
}

pub open spec fn all_known(w: Seq<Bit>) -> bool {
    forall|k: int| 0 <= k < w.len() ==> known(#[trigger] w[k])
}

pub open spec fn state_wf(st: BitState) -> bool {
    st.0.len() == WIDTH && st.1.len() == WIDTH && st.2.len() == WIDTH
}

proof fn lemma_xor_bit_eval(x: Bit, y: Bit, w: Seq<Bit>)
    requires
        all_known(w),
        xor_bit(x, y) is Ok,
    ensures
        xor_bit(eval_bit(x, w), eval_bit(y, w)) == Ok::<Bit, u8>(eval_bit(xor_bit(x, y)->Ok_0, w)),
{
    match x {
        Bit::A(i) => { if (i as int) < w.len() { assert(known(w[i as int])); } },
        Bit::AInv(i) => { if (i as int) < w.len() { assert(known(w[i as int])); } },
        _ => {},
    }
    match y {
        Bit::A(i) => { if (i as int) < w.len() { assert(known(w[i as int])); } },
        Bit::AInv(i) => { if (i as int) < w.len() { assert(known(w[i as int])); } },
        _ => {},
    }
}

proof fn lemma_xor_eval(s: Seq<Bit>, t: Seq<Bit>, n: nat, w: Seq<Bit>)
    requires
        all_known(w),
        n <= s.len(),
        n <= t.len(),
        xor_prefix(s, t, n) is Ok,
    ensures
        xor_prefix(eval_seq(s, w), eval_seq(t, w), n) == Ok::<Seq<Bit>, u8>(eval_seq(xor_prefix(s, t, n)->Ok_0, w)),
    decreases n,
{
    if n > 0 {
        lemma_xor_eval(s, t, (n - 1) as nat, w);
        lemma_xor_bit_eval(s[n - 1], t[n - 1], w);
        let p = xor_prefix(s, t, (n - 1) as nat)->Ok_0;
        let z = xor_bit(s[n - 1], t[n - 1])->Ok_0;
        assert(eval_seq(p.push(z), w) =~= eval_seq(p, w).push(eval_bit(z, w)));
    } else {
        assert(eval_seq(seq![], w) =~= seq![]);
    }
}

proof fn lemma_untagged_eval(s: Seq<Bit>, w: Seq<Bit>)
    requires
        highest_unknown(s, s.len()) is None,
    ensures
        eval_seq(s, w) == s,
{
    assert forall|k: int| 0 <= k < s.len() implies tag(#[trigger] s[k]) is None by {
        if tag(s[k]) is Some {
            lemma_unknown_surfaces(s, s.len(), k);
        }
    }
    assert(eval_seq(s, w) =~= s);
}

proof fn lemma_const_eval(v: u128, w: Seq<Bit>)
    ensures
        eval_seq(const_seq(v), w) == const_seq(v),
{
    assert(eval_seq(const_seq(v), w) =~= const_seq(v));
}

/// Evaluating the registers and then stepping is stepping and then
/// evaluating, where the symbolic step goes through.
proof fn lemma_step_eval(ins: Instruction, st: BitState, w: Seq<Bit>)
    requires
        all_known(w),
        state_wf(st),
    ensures
        ins.step_bits(st) matches Ok((st2, out)) ==> ins.step_bits(eval_state(st, w)) == Ok::<(BitState, Option<(Bit, Bit, Bit)>), Blocked>(
            (eval_state(st2, w), eval_out(out, w)),
        ),
        ins.step_bits(st) == Err::<(BitState, Option<(Bit, Bit, Bit)>), Blocked>(Blocked::Reserved) ==> ins.step_bits(eval_state(st, w)) == Err::<(BitState, Option<(Bit, Bit, Bit)>), Blocked>(Blocked::Reserved),
{
    let es = eval_state(st, w);
    lemma_const_eval(0, w);
    lemma_const_eval(1, w);
    lemma_const_eval(2, w);
    lemma_const_eval(3, w);
    match ins {
        Instruction::Adv(o) | Instruction::Bdv(o) | Instruction::Cdv(o) => {
            match o.combo_bits(st) {
                Some(n) => {
                    assert(o.combo_bits(es) == Some(eval_seq(n, w)));
                    if export_spec(n) is Ok {
                        lemma_untagged_eval(n, w);
                        let k = export_spec(n)->Ok_0;
                        assert(eval_seq(shr_seq(st.0, k as nat), w) =~= shr_seq(eval_seq(st.0, w), k as nat));
                    }
                },
                None => {},
            }
        },
        Instruction::Bxl(o) => {
            lemma_const_eval(o.spec_load() as u128, w);
            if xor_prefix(st.1, const_seq(o.spec_load() as u128), WIDTH as nat) is Ok {
                lemma_xor_eval(st.1, const_seq(o.spec_load() as u128), WIDTH as nat, w);
            }
        },
        Instruction::Bxc => {
            if xor_prefix(st.1, st.2, WIDTH as nat) is Ok {
                lemma_xor_eval(st.1, st.2, WIDTH as nat, w);
            }
        },
        Instruction::Bst(o) => {
            match o.combo_bits(st) {
                Some(v) => {
                    assert(o.combo_bits(es) == Some(eval_seq(v, w)));
                    assert(eval_seq(mask_seq(v), w) =~= mask_seq(eval_seq(v, w)));
                },
                None => {},
            }
        },
        Instruction::Out(o) => {
            match o.combo_bits(st) {
                Some(v) => {
                    assert(o.combo_bits(es) == Some(eval_seq(v, w)));
                },
                None => {},
            }
        },
        Instruction::Jnz(_) => {},
    }
}

/// Every unknown bit that `s` mentions is below 128 and still unknown in `a`.
pub open spec fn tags_ok(s: Seq<Bit>, a: Seq<Bit>) -> bool {
    forall|k: int|
        0 <= k < s.len() ==> match tag(#[trigger] s[k]) {
            Some(t) => (t as int) < a.len() && a[t as int] == Bit::A(t),
            None => true,
        }
}

pub open spec fn state_tags_ok(st: BitState, a: Seq<Bit>) -> bool {
    tags_ok(st.0, a) && tags_ok(st.1, a) && tags_ok(st.2, a)
}

pub open spec fn tag_ok(t: u8, a: Seq<Bit>) -> bool {
    (t as int) < a.len() && a[t as int] == Bit::A(t)
}

proof fn lemma_xor_tags(s: Seq<Bit>, t: Seq<Bit>, n: nat, a: Seq<Bit>)
    requires
        n <= s.len(),
        n <= t.len(),
        tags_ok(s, a),
        tags_ok(t, a),
    ensures
        xor_prefix(s, t, n) matches Ok(r) ==> tags_ok(r, a) && r.len() == n,
        xor_prefix(s, t, n) matches Err(e) ==> tag_ok(e, a),
    decreases n,
{
    if n > 0 {
        lemma_xor_tags(s, t, (n - 1) as nat, a);
        let x = s[n - 1];
        let y = t[n - 1];
        assert(match tag(x) { Some(i) => (i as int) < a.len() && a[i as int] == Bit::A(i), None => true });
        assert(match tag(y) { Some(i) => (i as int) < a.len() && a[i as int] == Bit::A(i), None => true });
        match xor_prefix(s, t, (n - 1) as nat) {
            Ok(p) => {
                match xor_bit(x, y) {
                    Ok(z) => {
                        assert forall|k: int| 0 <= k < p.push(z).len() implies match tag(#[trigger] p.push(z)[k]) {
                            Some(i) => (i as int) < a.len() && a[i as int] == Bit::A(i),
                            None => true,
                        } by {
                            if k < p.len() {
                                assert(p.push(z)[k] == p[k]);
                            }
                        }
                    },
                    Err(_) => {},
                }
            },
            Err(_) => {},
        }
    }
}

proof fn lemma_highest_tag(s: Seq<Bit>, n: nat, a: Seq<Bit>)
    requires
        n <= s.len(),
        tags_ok(s, a),
    ensures
        highest_unknown(s, n) matches Some(t) ==> tag_ok(t, a),
    decreases n,
{
    if n > 0 {
        assert(match tag(s[n - 1]) { Some(i) => (i as int) < a.len() && a[i as int] == Bit::A(i), None => true });
        lemma_highest_tag(s, (n - 1) as nat, a);
    }
}

/// A symbolic step keeps every unknown bit it mentions among those still
/// unknown in `a`, and is blocked only on one of them.
proof fn lemma_step_tags(ins: Instruction, st: BitState, a: Seq<Bit>)
    requires
        state_wf(st),
        state_tags_ok(st, a),
    ensures
        ins.step_bits(st) matches Ok((st2, out)) ==> state_wf(st2) && state_tags_ok(st2, a) && match out {
            Some((x, y, z)) => tags_ok(seq![x, y, z], a),
            None => true,
        },
        ins.step_bits(st) matches Err(Blocked::Unknown(t)) ==> tag_ok(t, a),
{
    assert forall|v: u128| #[trigger] tags_ok(const_seq(v), a) by {}
    match ins {
        Instruction::Adv(o) | Instruction::Bdv(o) | Instruction::Cdv(o) => {
            match o.combo_bits(st) {
                Some(n) => {
                    assert(tags_ok(n, a) && n.len() == WIDTH);
                    lemma_highest_tag(n, n.len(), a);
                    if export_spec(n) is Ok {
                        let k = export_spec(n)->Ok_0;
                        let r = shr_seq(st.0, k as nat);
                        assert forall|j: int| 0 <= j < r.len() implies match tag(#[trigger] r[j]) {
                            Some(i) => (i as int) < a.len() && a[i as int] == Bit::A(i),
                            None => true,
                        } by {
                            if j + k < st.0.len() {
                                assert(r[j] == st.0[j + k]);
                            }
                        }
                    }
                },
                None => {},
            }
        },
        Instruction::Bxl(o) => {
            lemma_xor_tags(st.1, const_seq(o.spec_load() as u128), WIDTH as nat, a);
        },
        Instruction::Bxc => {
            lemma_xor_tags(st.1, st.2, WIDTH as nat, a);
        },
        Instruction::Bst(o) => {
            match o.combo_bits(st) {
                Some(v) => {
                    assert(tags_ok(v, a) && v.len() == WIDTH);
                    let m = mask_seq(v);
                    assert forall|j: int| 0 <= j < m.len() implies match tag(#[trigger] m[j]) {
                        Some(i) => (i as int) < a.len() && a[i as int] == Bit::A(i),
                        None => true,
                    } by {
                        if j < 3 {
                            assert(m[j] == v[j]);
                        }
                    }
                },
                None => {},
            }
        },
        Instruction::Out(o) => {
            match o.combo_bits(st) {
                Some(v) => {
                    assert(tags_ok(v, a) && v.len() == WIDTH);
                    assert(match tag(v[0]) { Some(i) => (i as int) < a.len() && a[i as int] == Bit::A(i), None => true });
                    assert(match tag(v[1]) { Some(i) => (i as int) < a.len() && a[i as int] == Bit::A(i), None => true });
                    assert(match tag(v[2]) { Some(i) => (i as int) < a.len() && a[i as int] == Bit::A(i), None => true });
                    let q = seq![v[0], v[1], v[2]];
                    assert forall|j: int| 0 <= j < q.len() implies match tag(#[trigger] q[j]) {
                        Some(i) => (i as int) < a.len() && a[i as int] == Bit::A(i),
                        None => true,
                    } by {}
                },
                None => {},
            }
        },
        Instruction::Jnz(_) => {},
    }
}

pub open spec fn want_bit(d: u8) -> Bit {
    if d == 0 { Bit::Zero } else { Bit::One }
}

/// The three printed bits spell digit `d`, lowest first.
pub open spec fn digit_matches(bits: (Bit, Bit, Bit), d: u8) -> bool {
    bits.0 == want_bit(d & 1) && bits.1 == want_bit((d >> 1u8) & 1) && bits.2 == want_bit((d >> 2u8) & 1)
}

/// The run of `prog` from registers `st`, having printed `offset` digits,
/// prints the rest of `digits` and reaches a jump right after the last one,
/// within `fuel` steps.
pub open spec fn outcome(prog: Seq<Instruction>, digits: Seq<u8>, st: BitState, offset: nat, fuel: nat) -> bool
    decreases fuel,
{
    if st.3 < 0 || st.3 >= prog.len() {
        false
    } else if fuel == 0 {
        false
    } else {
        match prog[st.3].step_bits(st) {
            Err(_) => false,
            Ok((st2, Some(bits))) => offset < digits.len() && digit_matches(bits, digits[offset as int]) && outcome(
                prog,
                digits,
                st2,
                offset + 1,
                (fuel - 1) as nat,
            ),
            Ok((st2, None)) => if prog[st.3] is Jnz && offset == digits.len() {
                true
            } else {
                outcome(prog, digits, st2, offset, (fuel - 1) as nat)
            },
        }
    }
}

/// `x` agrees with every bit that `a` knows.
pub open spec fn consistent(x: u128, a: Seq<Bit>) -> bool {
    forall|i: int| 0 <= i < a.len() && known(#[trigger] a[i]) ==> const_seq(x)[i] == a[i]
}

/// Position `i` of `a` is its own unknown bit, or known.
pub open spec fn pins_ok(a: Seq<Bit>) -> bool {
    a.len() == WIDTH && forall|i: int| 0 <= i < WIDTH ==> #[trigger] a[i] == Bit::A(i as u8) || known(a[i])
}

/// How many bits of `a` are not known.
pub open spec fn unknown_count(a: Seq<Bit>) -> nat
    decreases a.len(),
{
    if a.len() == 0 {
        0
    } else {
        unknown_count(a.drop_last()) + if known(a.last()) { 0nat } else { 1nat }
    }
}

/// `p` is `a` with some unknown bits made known.
pub open spec fn pinned_from(p: Seq<Bit>, a: Seq<Bit>) -> bool {
    p.len() == a.len() && forall|i: int| 0 <= i < a.len() ==> #[trigger] p[i] == a[i] || (!known(a[i]) && known(p[i]))
}

proof fn lemma_count_pinned(p: Seq<Bit>, a: Seq<Bit>)
    requires
        pinned_from(p, a),
    ensures
        unknown_count(p) <= unknown_count(a),
        p != a ==> unknown_count(p) < unknown_count(a),
    decreases a.len(),
{
    if a.len() > 0 {
        let p2 = p.drop_last();
        let a2 = a.drop_last();
        assert forall|i: int| 0 <= i < a2.len() implies #[trigger] p2[i] == a2[i] || (!known(a2[i]) && known(p2[i])) by {
            assert(p[i] == a[i] || (!known(a[i]) && known(p[i])));
        }
        lemma_count_pinned(p2, a2);
        assert(p[a.len() - 1] == a[a.len() - 1] || (!known(a[a.len() - 1]) && known(p[a.len() - 1])));
        if p != a && p2 == a2 {
            assert(p.last() != a.last()) by {
                if p.last() == a.last() {
                    assert(p =~= p2.push(p.last()));
                    assert(a =~= a2.push(a.last()));
                }
            }
        }
    } else {
        assert(p =~= a);
    }
}

proof fn lemma_count_le_len(a: Seq<Bit>)
    ensures
        unknown_count(a) <= a.len(),
    decreases a.len(),
{
    if a.len() > 0 {
        lemma_count_le_len(a.drop_last());
    }
}

proof fn lemma_eval_start(a: Seq<Bit>, x: u128)
    requires
        pins_ok(a),
        consistent(x, a),
    ensures
        eval_seq(a, const_seq(x)) == const_seq(x),
{
    assert forall|i: int| 0 <= i < WIDTH implies #[trigger] eval_seq(a, const_seq(x))[i] == const_seq(x)[i] by {
        assert(a[i] == Bit::A(i as u8) || known(a[i]));
    }
    assert(eval_seq(a, const_seq(x)) =~= const_seq(x));
}

/// The bits of `s` below position `i`, as a number.
pub open spec fn low_value(s: Seq<Bit>, i: nat) -> nat
    decreases i,
{
    if i == 0 { 0 } else { low_value(s, (i - 1) as nat) + bit_value(s[i - 1]) * pow2_of((i - 1) as nat) }
}

proof fn lemma_value_split(s: Seq<Bit>, i: nat)
    requires
        i <= s.len(),
    ensures
        value_from(s, 0) == low_value(s, i) + pow2_of(i) * value_from(s, i),
        low_value(s, i) < pow2_of(i),
    decreases i,
{
    if i > 0 {
        let j = (i - 1) as nat;
        lemma_value_split(s, j);
        assert(value_from(s, j) == bit_value(s[j as int]) + 2 * value_from(s, i));
        assert(pow2_of(i) == 2 * pow2_of(j));
        let pj = pow2_of(j);
        let b = bit_value(s[j as int]);
        let vi = value_from(s, i);
        assert(pj * (b + 2 * vi) == b * pj + (2 * pj) * vi) by (nonlinear_arith);
        assert(b * pj <= pj) by (nonlinear_arith)
            requires b <= 1;
        assert(low_value(s, i) == low_value(s, j) + b * pj);
        assert(pow2_of(i) * vi == (2 * pj) * vi);
    } else {
        assert(pow2_of(0) == 1);
        assert(low_value(s, 0) == 0);
    }
}

/// The number whose bits are the known ones of `a` agrees with `a`, and is
/// the smallest number that does.
proof fn lemma_pinned_value(a: Seq<Bit>)
    requires
        a.len() == WIDTH,
    ensures
        value_from(a, 0) < pow2_of(128),
        consistent(value_from(a, 0) as u128, a),
        forall|w: u128| consistent(w, a) ==> value_from(a, 0) <= w,
{
    lemma_value_bound(a, 0);
    lemma_pow2_128();
    let v = value_from(a, 0);
    assert forall|i: int| 0 <= i < a.len() && known(#[trigger] a[i]) implies const_seq(v as u128)[i] == a[i] by {
        lemma_value_split(a, i as nat);
        lemma_pow2_positive(i as nat);
        let pi = pow2_of(i as nat);
        assert(v == value_from(a, i as nat) * pi + low_value(a, i as nat)) by (nonlinear_arith)
            requires v == low_value(a, i as nat) + pi * value_from(a, i as nat);
        vstd::arithmetic::div_mod::lemma_fundamental_div_mod_converse(v as int, pi as int, value_from(a, i as nat) as int, low_value(a, i as nat) as int);
        assert(value_from(a, i as nat) == bit_value(a[i]) + 2 * value_from(a, (i + 1) as nat));
    }
    assert forall|w: u128| consistent(w, a) implies v <= w by {
        lemma_min_value(a, w, 128);
        assert(pow2_of(0) == 1);
    }
}

proof fn lemma_min_value(a: Seq<Bit>, w: u128, i: nat)
    requires
        a.len() == WIDTH,
        i <= WIDTH,
        consistent(w, a),
    ensures
        forall|j: nat| j <= i ==> value_from(a, j) <= (w as nat) / #[trigger] pow2_of(j) || j > WIDTH,
    decreases i,
{
    if i > 0 {
        lemma_min_value(a, w, (i - 1) as nat);
    }
    assert forall|j: nat| j <= i implies value_from(a, j) <= (w as nat) / #[trigger] pow2_of(j) || j > WIDTH by {
        lemma_min_value_at(a, w, j);
    }
}

proof fn lemma_min_value_at(a: Seq<Bit>, w: u128, j: nat)
    requires
        a.len() == WIDTH,
        consistent(w, a),
    ensures
        j <= WIDTH ==> value_from(a, j) <= (w as nat) / pow2_of(j),
    decreases WIDTH - j,
{
    if j < WIDTH {
        lemma_min_value_at(a, w, j + 1);
        lemma_pow2_positive(j);
        let pj = pow2_of(j) as int;
        let q = (w as nat) / pow2_of(j);
        vstd::arithmetic::div_mod::lemma_div_denominator(w as int, pj, 2);
        assert(pow2_of(j + 1) == pow2_of(j) * 2);
        assert(q == 2 * (q / 2) + q % 2) by (nonlinear_arith)
            requires q >= 0;
        let b = bit_value(a[j as int]);
        if a[j as int] == Bit::One {
            assert(known(a[j as int]));
            assert(const_seq(w)[j as int] == Bit::One);
            assert(q % 2 == 1);
        }
        assert(b <= q % 2);
        let v1 = value_from(a, j + 1);
        assert(v1 <= (w as nat) / pow2_of(j + 1));
        assert((w as nat) / pow2_of(j + 1) == q / 2);
        assert(value_from(a, j) == b + 2 * v1);
        assert(b + 2 * v1 <= q) by (nonlinear_arith)
            requires v1 <= q / 2, b <= q % 2, q == 2 * (q / 2) + q % 2;
        assert(value_from(a, j) <= q);
    } else if j == WIDTH {
        assert(value_from(a, j) == 0);
        lemma_pow2_positive(j);
        assert(0 <= (w as nat) / pow2_of(j));
    }
}

} // verus!
