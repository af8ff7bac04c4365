//! Claw machines: how many tokens the cheapest win on each costs, with two
//! buttons that move the claw by fixed steps.
use vstd::prelude::*;
use vstd::string::StringSliceAdditionalSpecFns;
use crate::day8::exact_steps;
use crate::text::{fits_u64, lemma_sum_prefix_le, numbers, numbers_of, sum};

verus! {

/// The offset added to each prize position in the second part.
pub const FAR: i128 = 10000000000000;

/// A machine: the steps of buttons A and B and the prize position.
pub struct Machine {
    pub x1: int,
    pub y1: int,
    pub x2: int,
    pub y2: int,
    pub x3: int,
    pub y3: int,
}

/// Pressing A `a` times and B `b` times puts the claw on the prize.
pub open spec fn wins(m: Machine, a: int, b: int) -> bool {
    a >= 0 && b >= 0 && a * m.x1 + b * m.x2 == m.x3 && a * m.y1 + b * m.y2 == m.y3
}

/// The tokens a win takes: three per A press and one per B press; zero when
/// the prize cannot be won.
pub open spec fn cost(m: Machine) -> int {
    if exists|a: int, b: int| #[trigger] wins(m, a, b) {
        let (a, b) = choose|a: int, b: int| #[trigger] wins(m, a, b);
        3 * a + b
    } else {
        0
    }
}

/// The machines that the numbers of `s` describe, six numbers each, with the
/// prize moved by `FAR` when `far` holds.
pub open spec fn machines(s: Seq<u8>, far: bool) -> Seq<Machine> {
    let ns = numbers_of(s);
    let off: int = if far { FAR as int } else { 0 };
    Seq::new(
        ns.len() / 6,
        |i: int|
            Machine {
                x1: ns[6 * i] as int,
                y1: ns[6 * i + 1] as int,
                x2: ns[6 * i + 2] as int,
                y2: ns[6 * i + 3] as int,
                x3: ns[6 * i + 4] + off,
                y3: ns[6 * i + 5] + off,
            },
    )
}

pub open spec fn answer(s: Seq<u8>, far: bool) -> int {
    sum(machines(s, far).map_values(|m: Machine| cost(m)))
}

/// Numbers below 2^40, buttons that do not move the claw along one line, and
/// a total that fits in `i64`.
pub open spec fn well_formed(s: Seq<u8>, far: bool) -> bool {
    &&& fits_u64(s)
    &&& forall|i: int| 0 <= i < numbers_of(s).len() ==> #[trigger] numbers_of(s)[i] < 0x100_0000_0000
    &&& forall|i: int|
        0 <= i < machines(s, far).len() ==> (#[trigger] machines(s, far)[i]).x1 * machines(s, far)[i].y2
            != machines(s, far)[i].x2 * machines(s, far)[i].y1
    &&& answer(s, far) <= i64::MAX
}

proof fn lemma_unique(m: Machine, a: int, b: int, a2: int, b2: int)
    requires
        m.x1 * m.y2 - m.x2 * m.y1 != 0,
        wins(m, a, b),
        wins(m, a2, b2),
    ensures
        a == a2 && b == b2,
{
    let da = m.x1 * m.y2 - m.x2 * m.y1;
    assert(a * da == m.x3 * m.y2 - m.x2 * m.y3) by (nonlinear_arith)
        requires a * m.x1 + b * m.x2 == m.x3, a * m.y1 + b * m.y2 == m.y3, da == m.x1 * m.y2 - m.x2 * m.y1;
    assert(a2 * da == m.x3 * m.y2 - m.x2 * m.y3) by (nonlinear_arith)
        requires a2 * m.x1 + b2 * m.x2 == m.x3, a2 * m.y1 + b2 * m.y2 == m.y3, da == m.x1 * m.y2 - m.x2 * m.y1;
    assert(a == a2) by (nonlinear_arith)
        requires a * da == a2 * da, da != 0;
    assert(b * da == m.x1 * m.y3 - m.x3 * m.y1) by (nonlinear_arith)
        requires a * m.x1 + b * m.x2 == m.x3, a * m.y1 + b * m.y2 == m.y3, da == m.x1 * m.y2 - m.x2 * m.y1;
    assert(b2 * da == m.x1 * m.y3 - m.x3 * m.y1) by (nonlinear_arith)
        requires a2 * m.x1 + b2 * m.x2 == m.x3, a2 * m.y1 + b2 * m.y2 == m.y3, da == m.x1 * m.y2 - m.x2 * m.y1;
    assert(b == b2) by (nonlinear_arith)
        requires b * da == b2 * da, da != 0;
}

/// The tokens the machine takes, by Cramer's rule.
fn machine_cost(x1: i128, y1: i128, x2: i128, y2: i128, x3: i128, y3: i128) -> (r: i128)
    requires
        0 <= x1 < 0x100_0000_0000,
        0 <= y1 < 0x100_0000_0000,
        0 <= x2 < 0x100_0000_0000,
        0 <= y2 < 0x100_0000_0000,
        0 <= x3 < 0x1000_0000_0000,
        0 <= y3 < 0x1000_0000_0000,
        x1 * y2 != x2 * y1,
    ensures
        r == cost(Machine { x1: x1 as int, y1: y1 as int, x2: x2 as int, y2: y2 as int, x3: x3 as int, y3: y3 as int }),
{
    let ghost m = Machine { x1: x1 as int, y1: y1 as int, x2: x2 as int, y2: y2 as int, x3: x3 as int, y3: y3 as int };
    assert(0 <= x3 * y2 < 0x100_0000_0000_0000_0000_0000) by (nonlinear_arith)
        requires 0 <= x3 < 0x1000_0000_0000, 0 <= y2 < 0x100_0000_0000;
    assert(0 <= x2 * y3 < 0x100_0000_0000_0000_0000_0000) by (nonlinear_arith)
        requires 0 <= y3 < 0x1000_0000_0000, 0 <= x2 < 0x100_0000_0000;
    assert(0 <= x1 * y2 < 0x100_0000_0000_0000_0000_0000) by (nonlinear_arith)
        requires 0 <= x1 < 0x100_0000_0000, 0 <= y2 < 0x100_0000_0000;
    assert(0 <= x2 * y1 < 0x100_0000_0000_0000_0000_0000) by (nonlinear_arith)
        requires 0 <= x2 < 0x100_0000_0000, 0 <= y1 < 0x100_0000_0000;
    assert(0 <= x1 * y3 < 0x100_0000_0000_0000_0000_0000) by (nonlinear_arith)
        requires 0 <= x1 < 0x100_0000_0000, 0 <= y3 < 0x1000_0000_0000;
    assert(0 <= x3 * y1 < 0x100_0000_0000_0000_0000_0000) by (nonlinear_arith)
        requires 0 <= x3 < 0x1000_0000_0000, 0 <= y1 < 0x100_0000_0000;
    let na = x3 * y2 - x2 * y3;
    let da = x1 * y2 - x2 * y1;
    let nb = x1 * y3 - x3 * y1;
    let ga = exact_steps(na, da);
    let gb = exact_steps(nb, da);
    match (ga, gb) {
        (Some(a), Some(b)) => {
            proof {
                let (ai, bi, x1i, y1i, x2i, y2i, x3i, y3i) = (a as int, b as int, x1 as int, y1 as int, x2 as int, y2 as int, x3 as int, y3 as int);
                let dai = da as int;
                assert((ai * x1i + bi * x2i) * dai == (ai * dai) * x1i + (bi * dai) * x2i) by (nonlinear_arith);
                assert((ai * y1i + bi * y2i) * dai == (ai * dai) * y1i + (bi * dai) * y2i) by (nonlinear_arith);
                assert((x3i * y2i - x2i * y3i) * x1i + (x1i * y3i - x3i * y1i) * x2i == x3i * (x1i * y2i - x2i * y1i)) by (nonlinear_arith);
                assert((x3i * y2i - x2i * y3i) * y1i + (x1i * y3i - x3i * y1i) * y2i == y3i * (x1i * y2i - x2i * y1i)) by (nonlinear_arith);
                assert((ai * x1i + bi * x2i) * dai == x3i * dai);
                assert((ai * y1i + bi * y2i) * dai == y3i * dai);
                assert(a * x1 + b * x2 == x3) by (nonlinear_arith)
                    requires (a * x1 + b * x2) * da == x3 * da, da != 0;
                assert(a * y1 + b * y2 == y3) by (nonlinear_arith)
                    requires (a * y1 + b * y2) * da == y3 * da, da != 0;
                assert(wins(m, a as int, b as int));
                let (a2, b2) = choose|a2: int, b2: int| #[trigger] wins(m, a2, b2);
                lemma_unique(m, a as int, b as int, a2, b2);
                assert(0 <= a <= 0x1000_0000_0000_0000_0000_0000) by (nonlinear_arith)
                    requires a * da == na, da != 0, a >= 0, -0x100_0000_0000_0000_0000_0000 < na < 0x100_0000_0000_0000_0000_0000;
                assert(0 <= b <= 0x1000_0000_0000_0000_0000_0000) by (nonlinear_arith)
                    requires b * da == nb, da != 0, b >= 0, -0x100_0000_0000_0000_0000_0000 < nb < 0x100_0000_0000_0000_0000_0000;
            }
            3 * a + b
        },
        _ => {
            proof {
                if exists|a: int, b: int| #[trigger] wins(m, a, b) {
                    let (a, b) = choose|a: int, b: int| #[trigger] wins(m, a, b);
                    let dd = da as int;
                    assert(a * dd == na) by (nonlinear_arith)
                        requires a * x1 + b * x2 == x3, a * y1 + b * y2 == y3, dd == x1 * y2 - x2 * y1, na == x3 * y2 - x2 * y3;
                    assert(b * dd == nb) by (nonlinear_arith)
                        requires a * x1 + b * x2 == x3, a * y1 + b * y2 == y3, dd == x1 * y2 - x2 * y1, nb == x1 * y3 - x3 * y1;
                    assert(na == a * da);
                    assert(nb == b * da);
                }
            }
            0
        },
    }
}

fn total(input: &str, far: bool) -> (r: i64)
    requires
        well_formed(input.spec_bytes(), far),
    ensures
        r == answer(input.spec_bytes(), far),
{
    let ns = numbers(input.as_bytes());
    let ghost sn = numbers_of(input.spec_bytes());
    let ghost ms = machines(input.spec_bytes(), far);
    let ghost ts = ms.map_values(|m: Machine| cost(m));
    proof {
        assert forall|k: int| 0 <= k < ts.len() implies #[trigger] ts[k] >= 0 by {
            let m = ms[k];
            if exists|a: int, b: int| #[trigger] wins(m, a, b) {
                let (a, b) = choose|a: int, b: int| #[trigger] wins(m, a, b);
                assert(3 * a + b >= 0);
            }
        }
    }
    let off: i128 = if far { FAR } else { 0 };
    let n = ns.len();
    let count = n / 6;
    let mut t: i64 = 0;
    let mut i: usize = 0;
    while i < count
        invariant
            sn == numbers_of(input.spec_bytes()),
            ms == machines(input.spec_bytes(), far),
            ts == ms.map_values(|m: Machine| cost(m)),
            well_formed(input.spec_bytes(), far),
            forall|k: int| 0 <= k < ts.len() ==> #[trigger] ts[k] >= 0,
            ns@.len() == sn.len(),
            forall|k: int| 0 <= k < ns@.len() ==> ns@[k] as nat == #[trigger] sn[k],
            n == ns@.len(),
            count == n / 6,
            off == if far { FAR } else { 0 },
            i <= count,
            t == sum(ts.take(i as int)),
        decreases count - i,
    {
        assert(6 * i + 5 < n) by (nonlinear_arith)
            requires i < count, count == n / 6;
        let j = 6 * i;
        assert(sn[j as int] < 0x100_0000_0000 && sn[j + 1] < 0x100_0000_0000 && sn[j + 2] < 0x100_0000_0000);
        assert(sn[j + 3] < 0x100_0000_0000 && sn[j + 4] < 0x100_0000_0000 && sn[j + 5] < 0x100_0000_0000);
        let ghost m = ms[i as int];
        assert(m.x1 * m.y2 != m.x2 * m.y1);
        let c = machine_cost(
            ns[j] as i128,
            ns[j + 1] as i128,
            ns[j + 2] as i128,
            ns[j + 3] as i128,
            ns[j + 4] as i128 + off,
            ns[j + 5] as i128 + off,
        );
        proof {
            assert(ts[i as int] == c);
            lemma_sum_prefix_le(ts, i + 1);
            assert(ts.take(i + 1).drop_last() == ts.take(i as int));
            lemma_sum_prefix_le(ts, i as int);
        }
        let c64 = c as i64;
        t = t + c64;
        i = i + 1;
    }
    assert(ts.take(i as int) == ts);
    t
}

/// The fewest tokens that win every prize that can be won.
pub fn part1(input: &str) -> (r: i64)
    requires
        well_formed(input.spec_bytes(), false),
    ensures
        r == answer(input.spec_bytes(), false),
{
    total(input, false)
}

/// The fewest tokens that win every prize that can be won, with each prize
/// `FAR` further along both axes.
pub fn part2(input: &str) -> (r: i64)
    requires
        well_formed(input.spec_bytes(), true),
    ensures
        r == answer(input.spec_bytes(), true),
{
    total(input, true)
}

} // verus!
