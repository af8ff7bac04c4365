//! Pseudorandom secret numbers of market buyers, and the prices they offer.
use vstd::prelude::*;
use vstd::string::StringSliceAdditionalSpecFns;
use std::collections::{HashMap, HashSet};
use crate::text::{fits_u64, lemma_sum_prefix_le, numbers, numbers_of, sum};

verus! {

/// One step of the secret number sequence: mix in the number times 64, then
/// the number divided by 32, then the number times 2048, pruning to 24 bits
/// after the first and the last.
pub open spec fn advance_spec(i: u32) -> u32 {
    let o = ((i << 6u32) ^ i) & 0xFFFFFFu32;
    let o = (o >> 5u32) ^ o;
    let o = (o << 11u32) ^ o;
    o & 0xFFFFFFu32
}

/// The secret number after `n` steps from `x`.
pub open spec fn secret_after(x: u32, n: nat) -> u32
    decreases n,
{
    if n == 0 { x } else { advance_spec(secret_after(x, (n - 1) as nat)) }
}

/// The next secret number.
pub fn advance(i: u32) -> (r: u32)
    ensures
        r == advance_spec(i),
{
    let o = ((i << 6u32) ^ i) & 0xFFFFFFu32;
    let o = (o >> 5u32) ^ o;
    let o = (o << 11u32) ^ o;
    o & 0xFFFFFFu32
}

pub open spec fn well_formed(s: Seq<u8>) -> bool {
    &&& fits_u64(s)
    &&& forall|i: int| 0 <= i < numbers_of(s).len() ==> #[trigger] numbers_of(s)[i] <= u32::MAX
    &&& secret_sum(s) <= u64::MAX
}

/// The sum over the buyers of their 2000th secret numbers.
pub open spec fn secret_sum(s: Seq<u8>) -> int {
    sum(numbers_of(s).map_values(|x: nat| secret_after(x as u32, 2000) as int))
}

/// The sum over the buyers, one initial secret number per line, of the
/// secret number each has after 2000 steps.
pub fn part1(input: &str) -> (r: u64)
    requires
        well_formed(input.spec_bytes()),
    ensures
        r == secret_sum(input.spec_bytes()),
{
    let xs = numbers(input.as_bytes());
    let ghost ns = numbers_of(input.spec_bytes());
    let ghost ts = ns.map_values(|x: nat| secret_after(x as u32, 2000) as int);
    assert forall|k: int| 0 <= k < ts.len() implies #[trigger] ts[k] >= 0 by {}
    let mut total: u64 = 0;
    let mut i: usize = 0;
    while i < xs.len()
        invariant
            ns == numbers_of(input.spec_bytes()),
            ts == ns.map_values(|x: nat| secret_after(x as u32, 2000) as int),
            well_formed(input.spec_bytes()),
            xs@.len() == ns.len(),
            forall|k: int| 0 <= k < xs@.len() ==> xs@[k] as nat == #[trigger] ns[k],
            i <= xs@.len(),
            forall|k: int| 0 <= k < ts.len() ==> #[trigger] ts[k] >= 0,
            total == sum(ts.take(i as int)),
        decreases xs@.len() - i,
    {
        assert(ns[i as int] <= u32::MAX);
        let mut v = xs[i] as u32;
        let mut n: u32 = 0;
        while n < 2000
            invariant
                n <= 2000,
                v == secret_after(xs@[i as int] as u32, n as nat),
            decreases 2000 - n,
        {
            v = advance(v);
            n = n + 1;
        }
        assert(ts.take(i + 1).drop_last() == ts.take(i as int));
        assert(ts[i as int] == v);
        proof {
            lemma_sum_prefix_le(ts, i + 1);
        }
        total = total + v as u64;
        i = i + 1;
    }
    assert(ts.take(i as int) == ts);
    total
}

/// The price a buyer offers after `k` steps: the last digit of the secret.
pub open spec fn price(x: u32, k: nat) -> int {
    (secret_after(x, k) % 10) as int
}

/// The last four price changes up to step `k`, each plus ten, packed one per
/// byte with the latest lowest.
pub open spec fn code(x: u32, k: nat) -> u32
    decreases k,
{
    if k == 0 {
        0
    } else {
        (code(x, (k - 1) as nat) << 8u32) | ((10 + price(x, k) - price(x, (k - 1) as nat)) as u32)
    }
}

/// The price at the first step from `k` on, up to step 2000 and from step 4
/// on, where the last four changes are `p`; zero if there is none.
pub open spec fn first_from(x: u32, p: u32, k: nat) -> int
    decreases 2001 - k,
{
    if k > 2000 {
        0
    } else if code(x, k) == p {
        price(x, k)
    } else {
        first_from(x, p, k + 1)
    }
}

/// The bananas that selling when the last four changes are `p` earns from
/// the buyers `xs`.
pub open spec fn bananas(xs: Seq<nat>, p: u32) -> int {
    sum(xs.map_values(|x: nat| first_from(x as u32, p, 4)))
}

/// `v` is the most bananas any sequence of four changes earns.
pub open spec fn most_bananas(xs: Seq<nat>, v: int) -> bool {
    &&& forall|p: u32| #[trigger] bananas(xs, p) <= v
    &&& exists|p: u32| #[trigger] bananas(xs, p) == v
}

pub open spec fn map_get(m: Map<u32, u32>, p: u32) -> int {
    if m.contains_key(p) { m[p] as int } else { 0 }
}

proof fn lemma_first_skip(x: u32, p: u32, j: nat, k: nat)
    requires
        j <= k,
        forall|i: nat| j <= i < k ==> #[trigger] code(x, i) != p,
    ensures
        first_from(x, p, j) == first_from(x, p, k),
    decreases k - j,
{
    if j < k {
        lemma_first_skip(x, p, j + 1, k);
    }
}

proof fn lemma_first_bounds(x: u32, p: u32, k: nat)
    ensures
        0 <= first_from(x, p, k) <= 9,
    decreases 2001 - k,
{
    if k <= 2000 && code(x, k) != p {
        lemma_first_bounds(x, p, k + 1);
    }
}

proof fn lemma_bananas_bounds(xs: Seq<nat>, p: u32)
    ensures
        0 <= bananas(xs, p) <= 9 * xs.len(),
    decreases xs.len(),
{
    if xs.len() > 0 {
        lemma_bananas_bounds(xs.drop_last(), p);
        lemma_first_bounds(xs.last() as u32, p, 4);
        assert(xs.map_values(|x: nat| first_from(x as u32, p, 4)).drop_last() =~= xs.drop_last().map_values(
            |x: nat| first_from(x as u32, p, 4),
        ));
    }
}

/// The most bananas that one sequence of four price changes earns: each buyer
/// sells the first time the sequence occurs, at that price.
pub fn part2(input: &str) -> (r: u32)
    requires
        well_formed(input.spec_bytes()),
        9 * numbers_of(input.spec_bytes()).len() <= u32::MAX,
    ensures
        most_bananas(numbers_of(input.spec_bytes()), r as int),
{
    broadcast use vstd::std_specs::hash::group_hash_axioms;

    let xs = numbers(input.as_bytes());
    let ghost ns = numbers_of(input.spec_bytes());
    let mut patterns: HashMap<u32, u32> = HashMap::new();
    let mut best: u32 = 0;
    let mut i: usize = 0;
    while i < xs.len()
        invariant
            ns == numbers_of(input.spec_bytes()),
            well_formed(input.spec_bytes()),
            9 * ns.len() <= u32::MAX,
            xs@.len() == ns.len(),
            forall|k: int| 0 <= k < xs@.len() ==> xs@[k] as nat == #[trigger] ns[k],
            i <= xs@.len(),
            forall|p: u32| #[trigger] map_get(patterns@, p) == bananas(ns.take(i as int), p),
            forall|p: u32| #[trigger] map_get(patterns@, p) <= best,
            best == 0 || exists|p: u32| #[trigger] map_get(patterns@, p) == best,
        decreases xs@.len() - i,
    {
        assert(ns[i as int] <= u32::MAX);
        let x = xs[i] as u32;
        let ghost before = patterns@;
        let ghost head = ns.take(i as int);
        proof {
            assert forall|p: u32| #[trigger] bananas(ns.take(i + 1), p) == bananas(head, p) + first_from(x, p, 4) by {
                assert(ns.take(i + 1).map_values(|y: nat| first_from(y as u32, p, 4)).drop_last() =~= head.map_values(
                    |y: nat| first_from(y as u32, p, 4),
                ));
            }
        }
        let mut seen: HashSet<u32> = HashSet::new();
        let mut val = x;
        let mut digit = val % 10;
        let mut pattern: u32 = 0;
        let mut k: u32 = 1;
        while k <= 2000
            invariant
                1 <= k <= 2001,
                head == ns.take(i as int),
                i < xs@.len(),
                xs@.len() == ns.len(),
                9 * ns.len() <= u32::MAX,
                val == secret_after(x, (k - 1) as nat),
                digit == price(x, (k - 1) as nat),
                pattern == code(x, (k - 1) as nat),
                forall|p: u32| #[trigger] seen@.contains(p) <==> exists|j: nat| 4 <= j < k && #[trigger] code(x, j) == p,
                forall|p: u32| #[trigger] map_get(patterns@, p) == bananas(head, p) + if seen@.contains(p) { first_from(x, p, 4) } else { 0 },
                forall|p: u32| #[trigger] map_get(patterns@, p) <= best,
                best == 0 || exists|p: u32| #[trigger] map_get(patterns@, p) == best,
            decreases 2001 - k,
        {
            val = advance(val);
            let next = val % 10;
            let byte = 10 + next - digit;
            pattern = (pattern << 8u32) | byte;
            digit = next;
            let ghost kk = k as nat;
            assert(pattern == code(x, kk));
            if k >= 4 && !seen.contains(&pattern) {
                let c = pattern;
                let ghost old_map = patterns@;
                let ghost old_seen = seen@;
                assert(map_get(patterns@, c) == bananas(head, c));
                seen.insert(c);
                proof {
                    assert forall|i2: nat| 4 <= i2 < kk implies #[trigger] code(x, i2) != c by {}
                    lemma_first_skip(x, c, 4, kk);
                    lemma_bananas_bounds(head, c);
                    assert(head.len() == i);
                }
                let old_v: u32 = match patterns.get(&c) {
                    Some(v) => *v,
                    None => 0,
                };
                let nv = old_v + digit;
                let ghost old_best = best;
                patterns.insert(c, nv);
                if nv > best {
                    best = nv;
                }
                proof {
                    assert forall|p: u32| #[trigger] map_get(patterns@, p) <= best by {
                        if p != c {
                            assert(map_get(patterns@, p) == map_get(old_map, p));
                        }
                    }
                    if best == nv {
                        assert(map_get(patterns@, c) == best);
                    } else if best != 0 {
                        let q = choose|q: u32| #[trigger] map_get(old_map, q) == old_best;
                        if q != c {
                            assert(map_get(patterns@, q) == map_get(old_map, q));
                        } else {
                            assert(map_get(old_map, c) <= old_best);
                        }
                        assert(map_get(patterns@, q) == best);
                    }
                }
                proof {
                    assert(map_get(patterns@, c) == nv);
                    assert(first_from(x, c, 4) == price(x, kk));
                    assert forall|p: u32| #[trigger] map_get(patterns@, p) == bananas(head, p) + if seen@.contains(p) {
                        first_from(x, p, 4)
                    } else {
                        0
                    } by {
                        if p != c {
                            assert(map_get(patterns@, p) == map_get(old_map, p));
                            assert(seen@.contains(p) == old_seen.contains(p));
                        }
                    }
                    assert forall|p: u32| #[trigger] seen@.contains(p) <==> exists|j: nat| 4 <= j < kk + 1 && #[trigger] code(x, j) == p by {
                        if p == c {
                            assert(code(x, kk) == p);
                        }
                    }
                }
            } else {
                proof {
                    assert forall|p: u32| #[trigger] seen@.contains(p) <==> exists|j: nat| 4 <= j < kk + 1 && #[trigger] code(x, j) == p by {
                        if p == pattern && kk >= 4 {
                            assert(seen@.contains(p));
                        }
                    }
                }
            }
            k = k + 1;
        }
        proof {
            assert forall|p: u32| #[trigger] map_get(patterns@, p) == bananas(ns.take(i + 1), p) by {
                if !seen@.contains(p) {
                    assert forall|j: nat| 4 <= j < 2001 implies #[trigger] code(x, j) != p by {}
                    lemma_first_skip(x, p, 4, 2001);
                }
            }
        }
        i = i + 1;
    }
    proof {
        assert(ns.take(i as int) == ns);
        assert forall|p: u32| #[trigger] bananas(ns, p) <= best by {
            assert(map_get(patterns@, p) == bananas(ns.take(i as int), p));
        }
        if best == 0 {
            assert(map_get(patterns@, 0u32) == bananas(ns, 0u32));
            lemma_bananas_bounds(ns, 0u32);
            assert(bananas(ns, 0u32) == best);
        } else {
            let p = choose|p: u32| #[trigger] map_get(patterns@, p) == best;
            assert(bananas(ns, p) == best);
        }
    }
    best
}

} // verus!
