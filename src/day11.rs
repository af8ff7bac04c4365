//! Stones that change each time you blink: a zero becomes a one, a number
//! with an even count of digits splits in two halves, and any other number is
//! multiplied by 2024.
use vstd::prelude::*;
use vstd::string::StringSliceAdditionalSpecFns;
use std::collections::HashMap;
use crate::text::{fits_u64, lemma_sum_prefix_le, numbers, numbers_of, sum};

verus! {

pub open spec fn digit_count(x: nat) -> nat
    decreases x,
{
    if x < 10 { 1 } else { 1 + digit_count(x / 10) }
}

pub open spec fn pow10(n: nat) -> nat
    decreases n,
{
    if n == 0 { 1 } else { 10 * pow10((n - 1) as nat) }
}

/// The number of stones that one stone engraved with `x` becomes after `n`
/// blinks.
pub open spec fn stones(x: nat, n: nat) -> nat
    decreases n,
{
    if n == 0 {
        1
    } else if x == 0 {
        stones(1, (n - 1) as nat)
    } else if digit_count(x) % 2 == 0 {
        let cut = pow10(digit_count(x) / 2);
        stones(x / cut, (n - 1) as nat) + stones(x % cut, (n - 1) as nat)
    } else {
        stones(x * 2024, (n - 1) as nat)
    }
}

/// Every engraving that `x` turns into within `n` blinks fits in `u64`.
pub open spec fn engravings_fit(x: nat, n: nat) -> bool
    decreases n,
{
    if x > u64::MAX {
        false
    } else if n == 0 {
        true
    } else if x == 0 {
        engravings_fit(1, (n - 1) as nat)
    } else if digit_count(x) % 2 == 0 {
        let cut = pow10(digit_count(x) / 2);
        engravings_fit(x / cut, (n - 1) as nat) && engravings_fit(x % cut, (n - 1) as nat)
    } else {
        engravings_fit(x * 2024, (n - 1) as nat)
    }
}

proof fn lemma_digit_count_bound(x: nat, k: nat)
    requires
        x < pow10(k),
        k >= 1,
    ensures
        digit_count(x) <= k,
    decreases k,
{
    if x >= 10 {
        assert(pow10(k) == 10 * pow10((k - 1) as nat));
        assert(x / 10 < pow10((k - 1) as nat));
        if k == 1 {
            assert(false);
        }
        lemma_digit_count_bound(x / 10, (k - 1) as nat);
    }
}

proof fn lemma_pow10_monotone(a: nat, b: nat)
    requires
        a <= b,
    ensures
        1 <= pow10(a) <= pow10(b),
    decreases b,
{
    if a < b {
        lemma_pow10_monotone(a, (b - 1) as nat);
    } else if a > 0 {
        lemma_pow10_monotone((a - 1) as nat, (a - 1) as nat);
    }
}

fn count_digits(x: u64) -> (d: u64)
    ensures
        d == digit_count(x as nat),
        d <= 20,
{
    proof {
        reveal_with_fuel(pow10, 21);
        lemma_digit_count_bound(x as nat, 20);
    }
    let mut y = x;
    let mut d: u64 = 1;
    while y >= 10
        invariant
            d + digit_count(y as nat) == digit_count(x as nat) + 1,
            digit_count(x as nat) <= 20,
        decreases y,
    {
        y = y / 10;
        d = d + 1;
    }
    d
}

fn power_of_ten(n: u64) -> (p: u64)
    requires
        n <= 19,
    ensures
        p == pow10(n as nat),
{
    proof {
        reveal_with_fuel(pow10, 20);
        assert(pow10(19) == 10000000000000000000nat);
    }
    let mut p: u64 = 1;
    let mut i: u64 = 0;
    while i < n
        invariant
            i <= n <= 19,
            p == pow10(i as nat),
            pow10(19) == 10000000000000000000nat,
        decreases n - i,
    {
        proof {
            lemma_pow10_monotone((i + 1) as nat, 19);
        }
        p = p * 10;
        i = i + 1;
    }
    p
}

/// Each map at depth `d` maps an engraving to the number of stones it
/// becomes after `d` blinks.
pub open spec fn memo_ok(memo: Seq<HashMap<u64, u64>>) -> bool {
    forall|d: int, k: u64|
        0 <= d < memo.len() && #[trigger] memo[d]@.contains_key(k) ==> memo[d]@[k] == stones(k as nat, d as nat)
}

fn count(x: u64, n: usize, memo: &mut Vec<HashMap<u64, u64>>) -> (r: u64)
    requires
        memo_ok(old(memo)@),
        n < old(memo)@.len(),
        engravings_fit(x as nat, n as nat),
        stones(x as nat, n as nat) <= u64::MAX,
    ensures
        memo_ok(final(memo)@),
        final(memo)@.len() == old(memo)@.len(),
        r == stones(x as nat, n as nat),
    decreases n,
{
    broadcast use vstd::std_specs::hash::group_hash_axioms;

    if n == 0 {
        return 1;
    }
    match memo[n].get(&x) {
        Some(v) => {
            return *v;
        },
        None => {},
    }
    let r = if x == 0 {
        count(1, n - 1, memo)
    } else {
        let d = count_digits(x);
        if d % 2 == 0 {
            proof {
                lemma_pow10_monotone(0, (d / 2) as nat);
            }
            let cut = power_of_ten(d / 2);
            let a = count(x / cut, n - 1, memo);
            let b = count(x % cut, n - 1, memo);
            a + b
        } else {
            assert(engravings_fit(x as nat * 2024, (n - 1) as nat));
            count(x * 2024, n - 1, memo)
        }
    };
    let ghost before = memo@;
    let mut h = memo.remove(n);
    h.insert(x, r);
    memo.insert(n, h);
    proof {
        assert forall|d: int, k: u64|
            0 <= d < memo@.len() && #[trigger] memo@[d]@.contains_key(k) implies memo@[d]@[k] == stones(
            k as nat,
            d as nat,
        ) by {
            if d != n {
                assert(memo@[d] == before[d]);
            }
        }
    }
    r
}

/// The number of stones after `iters` blinks, starting from those engraved
/// with the numbers in `input`.
pub open spec fn total_stones(s: Seq<u8>, iters: nat) -> int {
    sum(numbers_of(s).map_values(|x: nat| stones(x, iters) as int))
}

pub open spec fn well_formed(s: Seq<u8>, iters: nat) -> bool {
    &&& fits_u64(s)
    &&& forall|i: int| 0 <= i < numbers_of(s).len() ==> engravings_fit(#[trigger] numbers_of(s)[i], iters)
    &&& total_stones(s, iters) <= u64::MAX
}

/// The number of stones after `iters` blinks.
pub fn blinks(iters: u32, input: &str) -> (r: u64)
    requires
        well_formed(input.spec_bytes(), iters as nat),
    ensures
        r == total_stones(input.spec_bytes(), iters as nat),
{
    broadcast use vstd::std_specs::hash::group_hash_axioms;

    let xs = numbers(input.as_bytes());
    let ghost ns = numbers_of(input.spec_bytes());
    let ghost ts = ns.map_values(|x: nat| stones(x, iters as nat) as int);
    let mut memo: Vec<HashMap<u64, u64>> = Vec::new();
    let mut d: u64 = 0;
    while d <= iters as u64
        invariant
            memo_ok(memo@),
            memo@.len() == d,
            d <= iters + 1,
        decreases iters + 1 - d,
    {
        memo.push(HashMap::new());
        d = d + 1;
    }
    proof {
        assert forall|k: int| 0 <= k < ts.len() implies #[trigger] ts[k] >= 0 by {}
    }
    let mut total: u64 = 0;
    let mut i: usize = 0;
    while i < xs.len()
        invariant
            ns == numbers_of(input.spec_bytes()),
            ts == ns.map_values(|x: nat| stones(x, iters as nat) as int),
            well_formed(input.spec_bytes(), iters as nat),
            xs@.len() == ns.len(),
            forall|k: int| 0 <= k < xs@.len() ==> xs@[k] as nat == #[trigger] ns[k],
            forall|k: int| 0 <= k < ts.len() ==> #[trigger] ts[k] >= 0,
            memo_ok(memo@),
            memo@.len() == iters + 1,
            i <= xs@.len(),
            total == sum(ts.take(i as int)),
        decreases xs@.len() - i,
    {
        proof {
            lemma_sum_prefix_le(ts, i + 1);
            assert(ts.take(i + 1).drop_last() == ts.take(i as int));
            assert(ts[i as int] == stones(xs@[i as int] as nat, iters as nat));
            assert(engravings_fit(ns[i as int], iters as nat));
        }
        let c = count(xs[i], iters as usize, &mut memo);
        total = total + c;
        i = i + 1;
    }
    assert(ts.take(i as int) == ts);
    total
}

/// The number of stones after 25 blinks.
pub fn part1(input: &str) -> (r: u64)
    requires
        well_formed(input.spec_bytes(), 25),
    ensures
        r == total_stones(input.spec_bytes(), 25),
{
    blinks(25, input)
}

/// The number of stones after 75 blinks.
pub fn part2(input: &str) -> (r: u64)
    requires
        well_formed(input.spec_bytes(), 75),
    ensures
        r == total_stones(input.spec_bytes(), 75),
{
    blinks(75, input)
}

} // verus!
