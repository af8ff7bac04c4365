//! Two lists of location numbers: how far apart they are once sorted, and
//! how similar they are.
use vstd::prelude::*;
use vstd::relations::{sorted_by, total_ordering};
use vstd::seq_lib::{lemma_sorted_unique, group_to_multiset_ensures, to_multiset_build, to_multiset_insert};
use vstd::string::StringSliceAdditionalSpecFns;
use crate::text::{ints, ints_of, lemma_sum_prefix_le, lines, lines_of, small_ints, sum};

verus! {

/// The first two signed numbers of each line that has at least two, in order.
pub open spec fn pairs(ls: Seq<Seq<u8>>) -> Seq<(int, int)>
    decreases ls.len(),
{
    if ls.len() == 0 {
        seq![]
    } else {
        let ns = ints_of(ls.last());
        if ns.len() >= 2 {
            pairs(ls.drop_last()).push((ns[0] as int, ns[1] as int))
        } else {
            pairs(ls.drop_last())
        }
    }
}

pub open spec fn left(s: Seq<u8>) -> Seq<int> {
    pairs(lines_of(s)).map_values(|p: (int, int)| p.0)
}

pub open spec fn right(s: Seq<u8>) -> Seq<int> {
    pairs(lines_of(s)).map_values(|p: (int, int)| p.1)
}

pub open spec fn abs(x: int) -> int {
    if x < 0 { -x } else { x }
}

/// The distances between the two lists, each sorted, position by position.
pub open spec fn distances(a: Seq<int>, b: Seq<int>) -> Seq<int> {
    Seq::new(a.len(), |i: int| abs(a.sort()[i] - b.sort()[i]))
}

/// How many times `x` occurs in `s`.
pub open spec fn occurrences(s: Seq<int>, x: int) -> nat
    decreases s.len(),
{
    if s.len() == 0 {
        0
    } else {
        occurrences(s.drop_last(), x) + if s.last() == x { 1nat } else { 0nat }
    }
}

/// Each number of the left list times how often it occurs in the right one.
pub open spec fn similarities(a: Seq<int>, b: Seq<int>) -> Seq<int> {
    a.map_values(|x: int| x * occurrences(b, x))
}

pub open spec fn well_formed(s: Seq<u8>) -> bool {
    forall|i: int| 0 <= i < lines_of(s).len() ==> small_ints(#[trigger] lines_of(s)[i])
}

pub open spec fn as_ints(v: Seq<i64>) -> Seq<int> {
    v.map_values(|x: i64| x as int)
}

/// Every number is below 2^40 in size.
pub open spec fn small(v: Seq<i64>) -> bool {
    forall|k: int| 0 <= k < v.len() ==> -0x100_0000_0000 < #[trigger] v[k] < 0x100_0000_0000
}

/// The two lists that `input` gives.
fn read_lists(input: &str) -> (r: (Vec<i64>, Vec<i64>))
    requires
        well_formed(input.spec_bytes()),
    ensures
        as_ints(r.0@) == left(input.spec_bytes()),
        as_ints(r.1@) == right(input.spec_bytes()),
        small(r.0@),
        small(r.1@),
{
    let ls = lines(input.as_bytes());
    let ghost sl = lines_of(input.spec_bytes());
    let mut a: Vec<i64> = Vec::new();
    let mut b: Vec<i64> = Vec::new();
    let mut i: usize = 0;
    while i < ls.len()
        invariant
            sl == lines_of(input.spec_bytes()),
            well_formed(input.spec_bytes()),
            ls@.len() == sl.len(),
            forall|k: int| 0 <= k < ls@.len() ==> #[trigger] ls@[k]@ == sl[k],
            i <= ls@.len(),
            as_ints(a@) == pairs(sl.take(i as int)).map_values(|p: (int, int)| p.0),
            as_ints(b@) == pairs(sl.take(i as int)).map_values(|p: (int, int)| p.1),
            small(a@),
            small(b@),
        decreases ls@.len() - i,
    {
        assert(sl.take(i as int + 1).drop_last() == sl.take(i as int));
        assert(small_ints(lines_of(input.spec_bytes())[i as int]));
        let v = ints(ls[i].as_slice());
        let ghost prev = pairs(sl.take(i as int));
        let ghost ns = ints_of(sl[i as int]);
        assert(sl.take(i as int + 1).last() == sl[i as int]);
        if v.len() >= 2 {
            let ghost old_a = a@;
            let ghost old_b = b@;
            a.push(v[0]);
            b.push(v[1]);
            proof {
                let p = (ns[0], ns[1]);
                assert(v@[0] as int == ns[0] && v@[1] as int == ns[1]);
                assert(as_ints(a@) =~= as_ints(old_a).push(p.0));
                assert(as_ints(b@) =~= as_ints(old_b).push(p.1));
                assert(prev.push(p).map_values(|p: (int, int)| p.0) =~= prev.map_values(|p: (int, int)| p.0).push(p.0));
                assert(prev.push(p).map_values(|p: (int, int)| p.1) =~= prev.map_values(|p: (int, int)| p.1).push(p.1));
                assert(pairs(sl.take(i as int + 1)) == prev.push(p));
                assert(as_ints(a@) =~= prev.push(p).map_values(|p: (int, int)| p.0));
                assert(as_ints(b@) =~= prev.push(p).map_values(|p: (int, int)| p.1));
            }
        } else {
            assert(pairs(sl.take(i as int + 1)) == prev);
        }
        i = i + 1;
    }
    assert(sl.take(i as int) == sl);
    (a, b)
}

/// `v` in ascending order.
fn sorted(v: &Vec<i64>) -> (r: Vec<i64>)
    requires
        small(v@),
    ensures
        small(r@),
        as_ints(r@) == as_ints(v@).sort(),
        r@.len() == v@.len(),
{
    broadcast use group_to_multiset_ensures;

    let ghost leq = |x: int, y: int| x <= y;
    let mut out: Vec<i64> = Vec::new();
    let mut i: usize = 0;
    while i < v.len()
        invariant
            i <= v@.len(),
            leq == (|x: int, y: int| x <= y),
            small(v@),
            small(out@),
            sorted_by(as_ints(out@), leq),
            as_ints(out@).to_multiset() == as_ints(v@).take(i as int).to_multiset(),
        decreases v@.len() - i,
    {
        let x = v[i];
        let mut p: usize = 0;
        while p < out.len() && out[p] <= x
            invariant
                i < v@.len(),
                x == v@[i as int],
                leq == (|x: int, y: int| x <= y),
                small(v@),
                small(out@),
                sorted_by(as_ints(out@), leq),
                as_ints(out@).to_multiset() == as_ints(v@).take(i as int).to_multiset(),
                p <= out@.len(),
                forall|k: int| 0 <= k < p ==> out@[k] <= x,
            decreases out@.len() - p,
        {
            p = p + 1;
        }
        let ghost before = as_ints(out@);
        let ghost before_raw = out@;
        out.insert(p, x);
        assert(out@ == before_raw.insert(p as int, x));
        assert forall|k: int| 0 <= k < out@.len() implies -0x100_0000_0000 < #[trigger] out@[k] < 0x100_0000_0000 by {
            if k < p {
                assert(out@[k] == before_raw[k]);
            } else if k > p {
                assert(out@[k] == before_raw[k - 1]);
            }
        }
        proof {
            assert(as_ints(out@) =~= before.insert(p as int, x as int));
            to_multiset_insert(before, p as int, x as int);
            assert(as_ints(v@).take(i + 1) =~= as_ints(v@).take(i as int).push(x as int));
            assert(as_ints(out@).to_multiset() == before.to_multiset().insert(x as int));
            to_multiset_build(as_ints(v@).take(i as int), x as int);
            assert forall|j: int, k: int| 0 <= j < k < as_ints(out@).len() implies #[trigger] leq(
                as_ints(out@)[j],
                as_ints(out@)[k],
            ) by {
                if k < p {
                    assert(leq(before[j], before[k]));
                } else if k == p {
                    assert(out@[j] <= x);
                } else if j == p {
                    if p < before.len() {
                        assert(!(before[p as int] <= x as int));
                        assert(leq(before[p as int], before[k - 1]) || p as int == k - 1);
                    }
                } else if j < p {
                    assert(leq(before[j], before[k - 1]));
                } else {
                    assert(leq(before[j - 1], before[k - 1]));
                }
            }
        }
        i = i + 1;
    }
    proof {
        assert(as_ints(v@).take(i as int) == as_ints(v@));
        as_ints(v@).lemma_sort_ensures();
        assert(total_ordering(leq));
        lemma_sorted_unique(as_ints(out@), as_ints(v@).sort(), leq);
        assert(as_ints(out@).to_multiset().len() == as_ints(v@).to_multiset().len());
    }
    out
}

/// How far apart the lists are: the sum of the distances of their numbers
/// once both are sorted.
pub fn part1(input: &str) -> (r: u64)
    requires
        well_formed(input.spec_bytes()),
        sum(distances(left(input.spec_bytes()), right(input.spec_bytes()))) <= u64::MAX,
    ensures
        r == sum(distances(left(input.spec_bytes()), right(input.spec_bytes()))),
{
    let (a0, b0) = read_lists(input);
    let a = sorted(&a0);
    let b = sorted(&b0);
    let ghost d = distances(left(input.spec_bytes()), right(input.spec_bytes()));
    proof {
        as_ints(a0@).lemma_sort_ensures();
        as_ints(b0@).lemma_sort_ensures();
        assert(pairs(lines_of(input.spec_bytes())).len() == a0@.len());
        assert(as_ints(b0@).len() == b0@.len());
        assert(right(input.spec_bytes()).len() == pairs(lines_of(input.spec_bytes())).len());
        assert(pairs(lines_of(input.spec_bytes())).len() == b0@.len());
    }
    let mut total: u64 = 0;
    let mut i: usize = 0;
    while i < a.len()
        invariant
            d == distances(as_ints(a0@), as_ints(b0@)),
            as_ints(a@) == as_ints(a0@).sort(),
            as_ints(b@) == as_ints(b0@).sort(),
            small(a@),
            small(b@),
            a@.len() == b@.len(),
            d.len() == a@.len(),
            sum(d) <= u64::MAX,
            i <= a@.len(),
            total == sum(d.take(i as int)),
        decreases a@.len() - i,
    {
        let x = a[i];
        let y = b[i];
        let diff = (if x > y { x - y } else { y - x }) as u64;
        proof {
            assert(d[i as int] == diff);
            assert forall|k: int| 0 <= k < d.len() implies #[trigger] d[k] >= 0 by {}
            lemma_sum_prefix_le(d, i + 1);
            assert(d.take(i + 1).drop_last() == d.take(i as int));
        }
        total = total + diff;
        i = i + 1;
    }
    assert(d.take(i as int) == d);
    total
}

/// How similar the lists are: each number of the left list times the number
/// of times it occurs in the right list, summed. A negative number that
/// occurs in the right list would overflow the unsigned total, so no term
/// may be negative.
pub fn part2(input: &str) -> (r: u64)
    requires
        well_formed(input.spec_bytes()),
        forall|k: int|
            0 <= k < left(input.spec_bytes()).len() ==> #[trigger] similarities(left(input.spec_bytes()), right(input.spec_bytes()))[k]
                >= 0,
        sum(similarities(left(input.spec_bytes()), right(input.spec_bytes()))) <= u64::MAX,
    ensures
        r == sum(similarities(left(input.spec_bytes()), right(input.spec_bytes()))),
{
    let (a, b) = read_lists(input);
    let ghost d = similarities(as_ints(a@), as_ints(b@));
    let mut total: u64 = 0;
    let mut i: usize = 0;
    while i < a.len()
        invariant
            d == similarities(as_ints(a@), as_ints(b@)),
            d == similarities(left(input.spec_bytes()), right(input.spec_bytes())),
            forall|k: int| 0 <= k < d.len() ==> #[trigger] d[k] >= 0,
            small(a@),
            sum(d) <= u64::MAX,
            i <= a@.len(),
            total == sum(d.take(i as int)),
        decreases a@.len() - i,
    {
        let x = a[i];
        let mut c: u64 = 0;
        let mut j: usize = 0;
        assert(as_ints(b@).take(0) =~= Seq::<int>::empty());
        while j < b.len()
            invariant
                j <= b@.len(),
                c == occurrences(as_ints(b@).take(j as int), x as int),
                c <= j,
            decreases b@.len() - j,
        {
            assert(as_ints(b@).take(j + 1).drop_last() =~= as_ints(b@).take(j as int));
            if b[j] == x {
                c = c + 1;
            }
            j = j + 1;
        }
        proof {
            assert(as_ints(b@).take(j as int) == as_ints(b@));
            assert(d[i as int] == x * c);
            lemma_sum_prefix_le(d, i + 1);
            lemma_sum_prefix_le(d, i as int);
            assert(d.take(i + 1).drop_last() == d.take(i as int));
        }
        assert(-0x100_0000_0000 * 0x1_0000_0000_0000_0000 <= (x as i128) * (c as i128) <= 0x100_0000_0000 * 0x1_0000_0000_0000_0000) by (nonlinear_arith)
            requires -0x100_0000_0000 < x < 0x100_0000_0000, 0 <= c <= u64::MAX;
        let term = (x as i128) * (c as i128);
        total = total + term as u64;
        i = i + 1;
    }
    assert(d.take(i as int) == d);
    total
}

} // verus!
