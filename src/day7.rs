//! Equations whose operators are missing: which targets can be made from
//! their numbers, combined left to right.
use vstd::prelude::*;
use vstd::string::StringSliceAdditionalSpecFns;
use crate::text::{contains_byte, fits_u64, lemma_sum_prefix_le, lines, lines_of, numbers, numbers_of, sum};

verus! {

/// The decimal digits of `x` shift a number by this power of ten when `x` is
/// written after it.
pub open spec fn shift_of(x: nat) -> nat
    decreases x,
{
    if x < 10 { 10 } else { 10 * shift_of(x / 10) }
}

/// `y` followed by the digits of `x`.
pub open spec fn concat(y: int, x: nat) -> int {
    y * shift_of(x) + x
}

/// The values of `s[0] op s[1] op ... op s[n-1]`, evaluated left to right,
/// with each `op` an addition or a multiplication, and with concatenation of
/// digits too when `with_concat` holds.
pub open spec fn results(s: Seq<nat>, n: nat, with_concat: bool) -> Set<int>
    decreases n,
{
    if n == 0 {
        Set::empty()
    } else if n == 1 {
        set![s[0] as int]
    } else {
        let prev = results(s, (n - 1) as nat, with_concat);
        let x = s[n - 1];
        Set::new(
            |t: int|
                exists|y: int|
                    #[trigger] prev.contains(y) && (y + x == t || y * x == t || (with_concat && concat(y, x)
                        == t)),
        )
    }
}

/// Whether `t` can be made from the first `n` numbers of `s`.
pub open spec fn makes(s: Seq<nat>, n: nat, t: int, with_concat: bool) -> bool {
    results(s, n, with_concat).contains(t)
}

/// Every value made is at least zero.
pub proof fn lemma_made_nonneg(s: Seq<nat>, n: nat, t: int, with_concat: bool)
    requires
        n <= s.len(),
        makes(s, n, t, with_concat),
    ensures
        t >= 0,
    decreases n,
{
    if n > 1 {
        let x = s[n - 1];
        let y = choose|y: int|
            #[trigger] results(s, (n - 1) as nat, with_concat).contains(y) && (y + x == t || y * x == t || (
            with_concat && concat(y, x) == t));
        lemma_made_nonneg(s, (n - 1) as nat, y, with_concat);
        lemma_shift_positive(x);
        assert(y * x >= 0) by (nonlinear_arith)
            requires y >= 0, x >= 0;
        assert(y * shift_of(x) >= 0) by (nonlinear_arith)
            requires y >= 0, shift_of(x) >= 0;
    }
}

/// The sum of the first `n` numbers of `s`.
pub open spec fn plus_all(s: Seq<nat>, n: nat) -> int
    decreases n,
{
    if n <= 1 { s[0] as int } else { plus_all(s, (n - 1) as nat) + s[n - 1] }
}

/// Some value can be made from the first `n` numbers: their sum.
pub proof fn lemma_makes_some(s: Seq<nat>, n: nat, with_concat: bool)
    requires
        1 <= n <= s.len(),
    ensures
        makes(s, n, plus_all(s, n), with_concat),
    decreases n,
{
    if n > 1 {
        lemma_makes_some(s, (n - 1) as nat, with_concat);
        let y = plus_all(s, (n - 1) as nat);
        assert(results(s, (n - 1) as nat, with_concat).contains(y));
    }
}

/// Writing a number after another shifts it by at least ten, and by at
/// most ten times the number written.
pub proof fn lemma_shift_positive(x: nat)
    ensures
        10 <= shift_of(x),
        x >= 1 ==> shift_of(x) <= 10 * x,
    decreases x,
{
    if x >= 10 {
        lemma_shift_positive(x / 10);
        let q = x / 10;
        assert(100 * q <= 10 * x) by (nonlinear_arith)
            requires q == x / 10;
    }
}

/// The equation lines from `i` on end at or after `i`, and within the text.
pub proof fn lemma_equation_count_at_least(ls: Seq<Seq<u8>>, i: nat)
    ensures
        equation_count(ls, i) >= i,
        i <= ls.len() ==> equation_count(ls, i) <= ls.len(),
    decreases ls.len() - i,
{
    if i < ls.len() && ls[i as int].contains(58u8) {
        lemma_equation_count_at_least(ls, i + 1);
    }
}

fn shift_for(x: u64) -> (r: u128)
    ensures
        r == shift_of(x as nat),
    decreases x,
{
    proof {
        lemma_shift_positive(x as nat);
    }
    if x < 10 {
        10
    } else {
        10 * shift_for(x / 10)
    }
}

/// Whether `res` can be made from the first `n` numbers of `vals`.
fn has_solution(res: u64, vals: &Vec<u64>, n: usize, with_concat: bool) -> (r: bool)
    requires
        1 <= n <= vals@.len(),
    ensures
        r == makes(vals@.map_values(|v: u64| v as nat), n as nat, res as int, with_concat),
    decreases n,
{
    let ghost s = vals@.map_values(|v: u64| v as nat);
    if n == 1 {
        return res == vals[0];
    }
    let x = vals[n - 1];
    let ghost xn = x as nat;
    assert(s[n - 1] == xn);
    if x == 0 {
        if res == 0 {
            proof {
                lemma_makes_some(s, (n - 1) as nat, with_concat);
                let y = plus_all(s, (n - 1) as nat);
                assert(results(s, (n - 1) as nat, with_concat).contains(y) && y * xn == res);
            }
            return true;
        }
    } else if res % x == 0 && has_solution(res / x, vals, n - 1, with_concat) {
        assert((res / x) * x == res) by (nonlinear_arith)
            requires res % x == 0, x > 0;
        assert(makes(s, (n - 1) as nat, (res / x) as int, with_concat) && (res / x) as int * x == res);
        return true;
    }
    if res >= x && has_solution(res - x, vals, n - 1, with_concat) {
        assert(makes(s, (n - 1) as nat, (res - x) as int, with_concat) && (res - x) as int + x == res);
        return true;
    }
    let mut cut_ok = false;
    if with_concat && res >= x {
        proof {
            lemma_shift_positive(x as nat);
        }
        let m = shift_for(x);
        let d = (res - x) as u128;
        if d % m == 0 {
            assert(d / m <= d) by (nonlinear_arith)
                requires m > 0, d >= 0;
            let p = (d / m) as u64;
            assert(p as int * m + x == res) by (nonlinear_arith)
                requires d == res - x, d % m == 0, p == d / m, m > 0;
            if has_solution(p, vals, n - 1, with_concat) {
                assert(makes(s, (n - 1) as nat, p as int, with_concat) && concat(p as int, xn) == res);
                cut_ok = true;
            }
        }
    }
    if cut_ok {
        return true;
    }
    proof {
        if makes(s, n as nat, res as int, with_concat) {
            let y = choose|y: int|
                #[trigger] results(s, (n - 1) as nat, with_concat).contains(y) && (y + xn == res || y * xn
                    == res || (with_concat && concat(y, xn) == res));
            lemma_made_nonneg(s, (n - 1) as nat, y, with_concat);
            lemma_shift_positive(xn);
            if y * xn == res {
                if x == 0 {
                    assert(res == 0);
                } else {
                    assert(res % x == 0 && res / x == y) by (nonlinear_arith)
                        requires y * xn == res, xn == x, x > 0, y >= 0;
                }
            } else if y + xn == res {
                assert(res >= x);
            } else {
                assert(concat(y, xn) == res);
                let m = shift_of(xn) as int;
                assert(y * m >= 0) by (nonlinear_arith)
                    requires y >= 0, m > 0;
                assert(res >= x);
                let dd = (res - x) as int;
                assert(dd % m == 0 && dd / m == y) by (nonlinear_arith)
                    requires y * m + xn == res, xn == x, dd == res - x, y >= 0, m > 0;
            }
        }
    }
    false
}

/// Lines up to the first one without a colon.
pub open spec fn equation_count(ls: Seq<Seq<u8>>, i: nat) -> nat
    decreases ls.len() - i,
{
    if i >= ls.len() || !ls[i as int].contains(58u8) {
        i
    } else {
        equation_count(ls, i + 1)
    }
}

pub open spec fn equations(s: Seq<u8>) -> Seq<Seq<u8>> {
    lines_of(s).take(equation_count(lines_of(s), 0) as int)
}

/// An equation line: a target and at least one number, within `u64`.
pub open spec fn equation_ok(line: Seq<u8>) -> bool {
    let ns = numbers_of(line);
    &&& fits_u64(line)
    &&& ns.len() >= 2
}

/// What an equation line adds: its target when its numbers can make it.
pub open spec fn calibration(line: Seq<u8>, with_concat: bool) -> int {
    let ns = numbers_of(line);
    if makes(ns.drop_first(), (ns.len() - 1) as nat, ns[0] as int, with_concat) {
        ns[0] as int
    } else {
        0
    }
}

pub open spec fn total(s: Seq<u8>, with_concat: bool) -> int {
    sum(equations(s).map_values(|l: Seq<u8>| calibration(l, with_concat)))
}

pub open spec fn well_formed(s: Seq<u8>, with_concat: bool) -> bool {
    &&& forall|i: int| 0 <= i < equations(s).len() ==> equation_ok(#[trigger] equations(s)[i])
    &&& total(s, with_concat) <= u64::MAX
}

fn line_value(line: &Vec<u8>, with_concat: bool) -> (r: u64)
    requires
        equation_ok(line@),
    ensures
        r == calibration(line@, with_concat),
{
    let ns = numbers(line.as_slice());
    let ghost spec_ns = numbers_of(line@);
    let res = ns[0];
    let mut vals: Vec<u64> = Vec::new();
    let mut k: usize = 1;
    while k < ns.len()
        invariant
            1 <= k <= ns@.len(),
            ns@.len() == spec_ns.len(),
            forall|j: int| 0 <= j < ns@.len() ==> ns@[j] as nat == #[trigger] spec_ns[j],
            vals@.len() == k - 1,
            forall|j: int| 0 <= j < vals@.len() ==> #[trigger] vals@[j] as nat == spec_ns[j + 1],
        decreases ns@.len() - k,
    {
        vals.push(ns[k]);
        k = k + 1;
    }
    let ghost d = spec_ns.drop_first();
    assert(vals@.map_values(|v: u64| v as nat) =~= d);
    if has_solution(res, &vals, vals.len(), with_concat) {
        res
    } else {
        0
    }
}

fn calibration_total(input: &str, with_concat: bool) -> (r: u64)
    requires
        well_formed(input.spec_bytes(), with_concat),
    ensures
        r == total(input.spec_bytes(), with_concat),
{
    let ls = lines(input.as_bytes());
    let ghost sl = lines_of(input.spec_bytes());
    let ghost eqs = equations(input.spec_bytes());
    let ghost terms = eqs.map_values(|l: Seq<u8>| calibration(l, with_concat));
    let mut t: u64 = 0;
    let mut i: usize = 0;
    proof {
        lemma_equation_count_at_least(sl, 0);
    }
    while i < ls.len()
        invariant
            ls@.len() == sl.len(),
            forall|k: int| 0 <= k < ls@.len() ==> #[trigger] ls@[k]@ == sl[k],
            sl == lines_of(input.spec_bytes()),
            eqs == equations(input.spec_bytes()),
            eqs == sl.take(equation_count(sl, 0) as int),
            terms == eqs.map_values(|l: Seq<u8>| calibration(l, with_concat)),
            well_formed(input.spec_bytes(), with_concat),
            i <= equation_count(sl, 0),
            equation_count(sl, 0) <= sl.len(),
            equation_count(sl, i as nat) == equation_count(sl, 0),
            t == sum(terms.take(i as int)),
        ensures
            i == equation_count(sl, 0),
            t == sum(terms.take(i as int)),
        decreases ls@.len() - i,
    {
        if !contains_byte(&ls[i], 58u8) {
            assert(equation_count(sl, i as nat) == i);
            break;
        }
        proof {
            assert(sl[i as int].contains(58u8));
            assert(equation_count(sl, i as nat) == equation_count(sl, i as nat + 1));
            lemma_equation_count_at_least(sl, i as nat + 1);
        }
        assert(eqs[i as int] == sl[i as int]);
        assert(equation_ok(equations(input.spec_bytes())[i as int]));
        let v = line_value(&ls[i], with_concat);
        proof {
            assert(terms[i as int] == v);
            assert forall|k: int| 0 <= k < terms.len() implies #[trigger] terms[k] >= 0 by {
                assert(terms[k] == calibration(eqs[k], with_concat));
            }
            lemma_sum_prefix_le(terms, i + 1);
            assert(terms.take(i + 1).drop_last() == terms.take(i as int));
        }
        t = t + v;
        i = i + 1;
    }
    proof {
        assert(terms.len() == eqs.len());
        assert(eqs.len() == equation_count(sl, 0));
        assert(terms.len() == i);
        assert(terms.take(i as int) == terms);
    }
    t
}

/// The sum of the targets that can be made with additions and
/// multiplications.
pub fn part1(input: &str) -> (r: u64)
    requires
        well_formed(input.spec_bytes(), false),
    ensures
        r == total(input.spec_bytes(), false),
{
    calibration_total(input, false)
}

/// The sum of the targets that can be made with additions, multiplications
/// and concatenations.
pub fn part2(input: &str) -> (r: u64)
    requires
        well_formed(input.spec_bytes(), true),
    ensures
        r == total(input.spec_bytes(), true),
{
    calibration_total(input, true)
}

} // verus!
