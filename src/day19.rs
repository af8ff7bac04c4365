//! Towel patterns: in how many ways each design can be laid out of the
//! available towels.
use vstd::prelude::*;
use vstd::string::StringSliceAdditionalSpecFns;
use crate::text::{lemma_sum_prefix_le, lines, lines_of, sum};

verus! {

pub open spec fn separator(c: u8) -> bool {
    c == 44u8 || c == 32u8
}

/// Words finished so far and the word being read, after reading `s`.
pub open spec fn word_state(s: Seq<u8>) -> (Seq<Seq<u8>>, Seq<u8>)
    decreases s.len(),
{
    if s.len() == 0 {
        (seq![], seq![])
    } else {
        let (done, cur) = word_state(s.drop_last());
        if separator(s.last()) {
            if cur.len() > 0 { (done.push(cur), seq![]) } else { (done, cur) }
        } else {
            (done, cur.push(s.last()))
        }
    }
}

/// The towels of a line: the runs of bytes between commas and spaces.
pub open spec fn words_of(s: Seq<u8>) -> Seq<Seq<u8>> {
    let (done, cur) = word_state(s);
    if cur.len() > 0 { done.push(cur) } else { done }
}

/// The design `d` ends with towel `t` at position `n`.
pub open spec fn ends_with_at(d: Seq<u8>, n: int, t: Seq<u8>) -> bool {
    0 < t.len() <= n <= d.len() && d.subrange(n - t.len(), n) == t
}

/// The number of ways to lay out the first `n` bytes of `d` with the towels
/// `ts`, each used any number of times.
pub open spec fn ways(d: Seq<u8>, ts: Seq<Seq<u8>>, n: int) -> nat
    decreases n, ts.len() + 1,
{
    if n <= 0 {
        1
    } else {
        ways_last(d, ts, n, ts.len() as int)
    }
}

/// The ways to lay out the first `n` bytes of `d` whose last towel is one of
/// the first `k` towels.
pub open spec fn ways_last(d: Seq<u8>, ts: Seq<Seq<u8>>, n: int, k: int) -> nat
    decreases n, k,
{
    if k <= 0 || n <= 0 {
        0
    } else {
        ways_last(d, ts, n, k - 1) + if k <= ts.len() && ends_with_at(d, n, ts[k - 1]) {
            ways(d, ts, n - ts[k - 1].len())
        } else {
            0
        }
    }
}

pub open spec fn towels(s: Seq<u8>) -> Seq<Seq<u8>> {
    words_of(lines_of(s)[0])
}

pub open spec fn designs(s: Seq<u8>) -> Seq<Seq<u8>> {
    lines_of(s).skip(2)
}

pub open spec fn design_term(s: Seq<u8>, d: Seq<u8>, count_all: bool) -> int {
    let w = ways(d, towels(s), d.len() as int);
    if count_all { w as int } else if w > 0 { 1 } else { 0 }
}

pub open spec fn answer(s: Seq<u8>, count_all: bool) -> int {
    sum(designs(s).map_values(|d: Seq<u8>| design_term(s, d, count_all)))
}

/// A line of towels, a line to skip, and designs whose every prefix can be
/// laid out in at most `u64::MAX` ways.
pub open spec fn well_formed(s: Seq<u8>) -> bool {
    &&& lines_of(s).len() >= 2
    &&& forall|i: int, n: int|
        0 <= i < designs(s).len() && 0 <= n <= designs(s)[i].len() ==> #[trigger] ways(designs(s)[i], towels(s), n)
            <= u64::MAX
}

/// The towels in `b`.
fn words(b: &Vec<u8>) -> (r: Vec<Vec<u8>>)
    ensures
        r@.len() == words_of(b@).len(),
        forall|i: int| 0 <= i < r@.len() ==> #[trigger] r@[i]@ == words_of(b@)[i],
{
    let mut done: Vec<Vec<u8>> = Vec::new();
    let mut cur: Vec<u8> = Vec::new();
    let mut i: usize = 0;
    while i < b.len()
        invariant
            i <= b@.len(),
            done@.len() == word_state(b@.take(i as int)).0.len(),
            forall|k: int| 0 <= k < done@.len() ==> #[trigger] done@[k]@ == word_state(b@.take(i as int)).0[k],
            cur@ == word_state(b@.take(i as int)).1,
        decreases b@.len() - i,
    {
        assert(b@.take(i as int + 1).drop_last() == b@.take(i as int));
        let c = b[i];
        if c == 44u8 || c == 32u8 {
            if cur.len() > 0 {
                let piece = cur;
                cur = Vec::new();
                done.push(piece);
            }
        } else {
            cur.push(c);
        }
        i = i + 1;
    }
    assert(b@.take(i as int) == b@);
    if cur.len() > 0 {
        done.push(cur);
    }
    done
}

fn ends_with(d: &Vec<u8>, n: usize, t: &Vec<u8>) -> (r: bool)
    ensures
        r == ends_with_at(d@, n as int, t@),
{
    if t.len() == 0 || t.len() > n || n > d.len() {
        return false;
    }
    let start = n - t.len();
    let mut k: usize = 0;
    while k < t.len()
        invariant
            start + t@.len() == n <= d@.len(),
            k <= t@.len(),
            forall|m: int| 0 <= m < k ==> d@[start + m] == t@[m],
        decreases t@.len() - k,
    {
        if d[start + k] != t[k] {
            assert(d@.subrange(start as int, n as int)[k as int] != t@[k as int]);
            return false;
        }
        k = k + 1;
    }
    assert(d@.subrange(start as int, n as int) =~= t@);
    true
}

/// The number of ways to lay out all of `d` with the towels `ts`.
fn count_builds(d: &Vec<u8>, ts: &Vec<Vec<u8>>) -> (r: u64)
    requires
        forall|n: int| 0 <= n <= d@.len() ==> #[trigger] ways(d@, towels_of(ts@), n) <= u64::MAX,
    ensures
        r == ways(d@, towels_of(ts@), d@.len() as int),
{
    let ghost sts = towels_of(ts@);
    let mut dp: Vec<u64> = Vec::new();
    dp.push(1);
    let mut n: usize = 0;
    while n < d.len()
        invariant
            sts == towels_of(ts@),
            n <= d@.len(),
            dp@.len() == n + 1,
            forall|j: int| 0 <= j <= n ==> #[trigger] dp@[j] == ways(d@, sts, j),
            forall|m: int| 0 <= m <= d@.len() ==> #[trigger] ways(d@, sts, m) <= u64::MAX,
        decreases d@.len() - n,
    {
        let m = n + 1;
        let mut acc: u64 = 0;
        let mut k: usize = 0;
        while k < ts.len()
            invariant
                sts == towels_of(ts@),
                m == n + 1,
                n < d@.len(),
                dp@.len() == m,
                forall|j: int| 0 <= j < m ==> #[trigger] dp@[j] == ways(d@, sts, j),
                forall|i: int| 0 <= i <= d@.len() ==> #[trigger] ways(d@, sts, i) <= u64::MAX,
                k <= ts@.len(),
                acc == ways_last(d@, sts, m as int, k as int),
            decreases ts@.len() - k,
        {
            proof {
                lemma_ways_last_le(d@, sts, m as int, k as int + 1);
            }
            if ends_with(d, m, &ts[k]) {
                acc = acc + dp[m - ts[k].len()];
            }
            k = k + 1;
        }
        dp.push(acc);
        n = n + 1;
    }
    dp[d.len()]
}

pub open spec fn towels_of(ts: Seq<Vec<u8>>) -> Seq<Seq<u8>> {
    Seq::new(ts.len(), |i: int| ts[i]@)
}

proof fn lemma_ways_last_le(d: Seq<u8>, ts: Seq<Seq<u8>>, n: int, k: int)
    requires
        0 <= k <= ts.len(),
        n > 0,
    ensures
        ways_last(d, ts, n, k) <= ways(d, ts, n),
        k > 0 ==> ways_last(d, ts, n, k - 1) <= ways_last(d, ts, n, k),
    decreases ts.len() - k,
{
    if k < ts.len() {
        lemma_ways_last_le(d, ts, n, k + 1);
    }
}

fn answer_exec(input: &str, count_all: bool) -> (r: u64)
    requires
        well_formed(input.spec_bytes()),
        answer(input.spec_bytes(), count_all) <= u64::MAX,
    ensures
        r == answer(input.spec_bytes(), count_all),
{
    let ls = lines(input.as_bytes());
    let ghost sl = lines_of(input.spec_bytes());
    let ts = words(&ls[0]);
    let ghost sts = towels(input.spec_bytes());
    assert(towels_of(ts@) =~= sts);
    let ghost terms = designs(input.spec_bytes()).map_values(|d: Seq<u8>| design_term(input.spec_bytes(), d, count_all));
    proof {
        assert forall|k: int| 0 <= k < terms.len() implies #[trigger] terms[k] >= 0 by {}
    }
    let mut total: u64 = 0;
    let mut i: usize = 2;
    while i < ls.len()
        invariant
            sl == lines_of(input.spec_bytes()),
            sts == towels(input.spec_bytes()),
            towels_of(ts@) == sts,
            well_formed(input.spec_bytes()),
            terms == designs(input.spec_bytes()).map_values(|d: Seq<u8>| design_term(input.spec_bytes(), d, count_all)),
            forall|k: int| 0 <= k < terms.len() ==> #[trigger] terms[k] >= 0,
            sum(terms) <= u64::MAX,
            ls@.len() == sl.len(),
            forall|k: int| 0 <= k < ls@.len() ==> #[trigger] ls@[k]@ == sl[k],
            2 <= i <= ls@.len(),
            total == sum(terms.take(i - 2)),
        decreases ls@.len() - i,
    {
        assert(designs(input.spec_bytes())[i - 2] == sl[i as int]);
        assert forall|n: int| 0 <= n <= ls@[i as int]@.len() implies #[trigger] ways(ls@[i as int]@, towels_of(ts@), n) <= u64::MAX by {
            assert(ways(designs(input.spec_bytes())[i - 2], towels(input.spec_bytes()), n) <= u64::MAX);
        }
        let w = count_builds(&ls[i], &ts);
        let v: u64 = if count_all { w } else if w > 0 { 1 } else { 0 };
        proof {
            assert(terms[i - 2] == v);
            lemma_sum_prefix_le(terms, i - 1);
            assert(terms.take(i - 1).drop_last() == terms.take(i - 2));
        }
        total = total + v;
        i = i + 1;
    }
    assert(terms.take(i - 2) == terms);
    total
}

/// The number of designs that the towels can lay out.
pub fn part1(input: &str) -> (r: u64)
    requires
        well_formed(input.spec_bytes()),
        answer(input.spec_bytes(), false) <= u64::MAX,
    ensures
        r == answer(input.spec_bytes(), false),
{
    answer_exec(input, false)
}

/// The number of ways, over all designs, in which the towels lay them out.
pub fn part2(input: &str) -> (r: u64)
    requires
        well_formed(input.spec_bytes()),
        answer(input.spec_bytes(), true) <= u64::MAX,
    ensures
        r == answer(input.spec_bytes(), true),
{
    answer_exec(input, true)
}

} // verus!
