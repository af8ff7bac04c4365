//! Page ordering rules and the updates that follow or break them.
use vstd::prelude::*;
use vstd::string::StringSliceAdditionalSpecFns;
use crate::text::{contains_byte, fits_u64, lemma_sum_prefix_le, lines, lines_of, numbers, numbers_of, sum};

verus! {

/// The index of the first line from `i` on without a `|`.
pub open spec fn rules_end(ls: Seq<Seq<u8>>, i: nat) -> nat
    decreases ls.len() - i,
{
    if i >= ls.len() || !ls[i as int].contains(124u8) {
        i
    } else {
        rules_end(ls, i + 1)
    }
}

/// The index of the first line from `i` on shorter than three bytes.
pub open spec fn updates_end(ls: Seq<Seq<u8>>, i: nat) -> nat
    decreases ls.len() - i,
{
    if i >= ls.len() || ls[i as int].len() < 3 {
        i
    } else {
        updates_end(ls, i + 1)
    }
}

/// The rules: each says that its first page comes before its second.
pub open spec fn rules(ls: Seq<Seq<u8>>) -> Seq<(nat, nat)> {
    ls.take(rules_end(ls, 0) as int).map_values(|l: Seq<u8>| (numbers_of(l)[0], numbers_of(l)[1]))
}

/// The update lines: those after the line that ends the rules, up to the
/// first short one.
pub open spec fn update_lines(ls: Seq<Seq<u8>>) -> Seq<Seq<u8>> {
    let start = rules_end(ls, 0) + 1;
    ls.subrange(start as int, updates_end(ls, start) as int)
}

/// No rule puts a later page of `u` before an earlier one.
pub open spec fn ordered(u: Seq<nat>, rs: Seq<(nat, nat)>) -> bool {
    forall|a: int, b: int| 0 <= a < b < u.len() ==> !rs.contains((#[trigger] u[b], #[trigger] u[a]))
}

/// How many pages of `u` the rules put before `x`.
pub open spec fn before_count(u: Seq<nat>, rs: Seq<(nat, nat)>, x: nat) -> nat
    decreases u.len(),
{
    if u.len() == 0 {
        0
    } else {
        before_count(u.drop_last(), rs, x) + if rs.contains((u.last(), x)) { 1nat } else { 0nat }
    }
}

/// The first page of `u` from position `i` on that the rules put after
/// exactly half of the pages (rounded down): the middle page once `u` is put
/// in order. Zero when there is none.
pub open spec fn middle_from(u: Seq<nat>, rs: Seq<(nat, nat)>, i: nat) -> nat
    decreases u.len() - i,
{
    if i >= u.len() {
        0
    } else if before_count(u, rs, u[i as int]) == u.len() / 2 {
        u[i as int]
    } else {
        middle_from(u, rs, i + 1)
    }
}

/// What an update adds: its middle page when it is in order (the first
/// part), or the middle page of its reordering when it is not (the second).
pub open spec fn update_term(u: Seq<nat>, rs: Seq<(nat, nat)>, reorder: bool) -> int {
    if ordered(u, rs) {
        if reorder { 0 } else { u[(u.len() / 2) as int] as int }
    } else {
        if reorder { middle_from(u, rs, 0) as int } else { 0 }
    }
}

pub open spec fn terms(s: Seq<u8>, reorder: bool) -> Seq<int> {
    let ls = lines_of(s);
    update_lines(ls).map_values(|l: Seq<u8>| update_term(numbers_of(l), rules(ls), reorder))
}

/// Rules of two numbers and updates of at least one, within `u64`, and a
/// line that ends the rules.
pub open spec fn well_formed(s: Seq<u8>) -> bool {
    let ls = lines_of(s);
    &&& rules_end(ls, 0) < ls.len()
    &&& forall|i: int| 0 <= i < ls.len() ==> fits_u64(#[trigger] ls[i])
    &&& forall|i: int| 0 <= i < rules_end(ls, 0) ==> numbers_of(#[trigger] ls[i]).len() >= 2
    &&& forall|i: int|
        rules_end(ls, 0) < i < updates_end(ls, rules_end(ls, 0) + 1) ==> numbers_of(#[trigger] ls[i]).len()
            >= 1
}

proof fn lemma_rules_end(ls: Seq<Seq<u8>>, i: nat)
    ensures
        rules_end(ls, i) >= i,
        i <= ls.len() ==> rules_end(ls, i) <= ls.len(),
        forall|k: int| i <= k < rules_end(ls, i) ==> #[trigger] ls[k].contains(124u8),
    decreases ls.len() - i,
{
    if i < ls.len() && ls[i as int].contains(124u8) {
        lemma_rules_end(ls, i + 1);
    }
}

proof fn lemma_updates_end(ls: Seq<Seq<u8>>, i: nat)
    ensures
        updates_end(ls, i) >= i,
        i <= ls.len() ==> updates_end(ls, i) <= ls.len(),
    decreases ls.len() - i,
{
    if i < ls.len() && ls[i as int].len() >= 3 {
        lemma_updates_end(ls, i + 1);
    }
}

fn has_rule(rs: &Vec<(u64, u64)>, a: u64, b: u64) -> (r: bool)
    ensures
        r == rs@.map_values(|p: (u64, u64)| (p.0 as nat, p.1 as nat)).contains((a as nat, b as nat)),
{
    let ghost m = rs@.map_values(|p: (u64, u64)| (p.0 as nat, p.1 as nat));
    let mut i: usize = 0;
    while i < rs.len()
        invariant
            m == rs@.map_values(|p: (u64, u64)| (p.0 as nat, p.1 as nat)),
            i <= rs@.len(),
            forall|k: int| 0 <= k < i ==> m[k] != (a as nat, b as nat),
        decreases rs@.len() - i,
    {
        if rs[i].0 == a && rs[i].1 == b {
            assert(m[i as int] == (a as nat, b as nat));
            return true;
        }
        i = i + 1;
    }
    false
}

pub open spec fn nats(v: Seq<u64>) -> Seq<nat> {
    v.map_values(|x: u64| x as nat)
}

fn is_ordered(u: &Vec<u64>, rs: &Vec<(u64, u64)>) -> (r: bool)
    ensures
        r == ordered(nats(u@), rs@.map_values(|p: (u64, u64)| (p.0 as nat, p.1 as nat))),
{
    let ghost m = rs@.map_values(|p: (u64, u64)| (p.0 as nat, p.1 as nat));
    let ghost s = nats(u@);
    let mut b: usize = 0;
    while b < u.len()
        invariant
            m == rs@.map_values(|p: (u64, u64)| (p.0 as nat, p.1 as nat)),
            s == nats(u@),
            b <= u@.len(),
            forall|x: int, y: int| 0 <= x < y < b ==> !m.contains((#[trigger] s[y], #[trigger] s[x])),
        decreases u@.len() - b,
    {
        let mut a: usize = 0;
        while a < b
            invariant
                m == rs@.map_values(|p: (u64, u64)| (p.0 as nat, p.1 as nat)),
                s == nats(u@),
                a <= b < u@.len(),
                forall|x: int, y: int| 0 <= x < y < b ==> !m.contains((#[trigger] s[y], #[trigger] s[x])),
                forall|x: int| 0 <= x < a ==> !m.contains((s[b as int], #[trigger] s[x])),
            decreases b - a,
        {
            if has_rule(rs, u[b], u[a]) {
                assert(m.contains((s[b as int], s[a as int])));
                return false;
            }
            a = a + 1;
        }
        b = b + 1;
    }
    true
}

fn count_before(u: &Vec<u64>, rs: &Vec<(u64, u64)>, x: u64) -> (r: u64)
    ensures
        r == before_count(nats(u@), rs@.map_values(|p: (u64, u64)| (p.0 as nat, p.1 as nat)), x as nat),
{
    let ghost m = rs@.map_values(|p: (u64, u64)| (p.0 as nat, p.1 as nat));
    let mut n: u64 = 0;
    let mut i: usize = 0;
    while i < u.len()
        invariant
            m == rs@.map_values(|p: (u64, u64)| (p.0 as nat, p.1 as nat)),
            i <= u@.len(),
            n == before_count(nats(u@).take(i as int), m, x as nat),
            n <= i,
        decreases u@.len() - i,
    {
        assert(nats(u@).take(i + 1).drop_last() == nats(u@).take(i as int));
        if has_rule(rs, u[i], x) {
            n = n + 1;
        }
        i = i + 1;
    }
    assert(nats(u@).take(i as int) == nats(u@));
    n
}

fn middle_page(u: &Vec<u64>, rs: &Vec<(u64, u64)>) -> (r: u64)
    ensures
        r == middle_from(nats(u@), rs@.map_values(|p: (u64, u64)| (p.0 as nat, p.1 as nat)), 0),
{
    let ghost m = rs@.map_values(|p: (u64, u64)| (p.0 as nat, p.1 as nat));
    let mut i: usize = 0;
    while i < u.len()
        invariant
            m == rs@.map_values(|p: (u64, u64)| (p.0 as nat, p.1 as nat)),
            i <= u@.len(),
            middle_from(nats(u@), m, 0) == middle_from(nats(u@), m, i as nat),
        decreases u@.len() - i,
    {
        if count_before(u, rs, u[i]) == (u.len() / 2) as u64 {
            return u[i];
        }
        i = i + 1;
    }
    0
}

fn answer(input: &str, reorder: bool) -> (r: u32)
    requires
        well_formed(input.spec_bytes()),
        sum(terms(input.spec_bytes(), reorder)) <= u32::MAX,
    ensures
        r == sum(terms(input.spec_bytes(), reorder)),
{
    let ls = lines(input.as_bytes());
    let ghost sl = lines_of(input.spec_bytes());
    let ghost rend = rules_end(sl, 0);
    proof {
        lemma_rules_end(sl, 0);
    }
    let mut rs: Vec<(u64, u64)> = Vec::new();
    let mut i: usize = 0;
    while i < ls.len() && contains_byte(&ls[i], 124u8)
        invariant
            sl == lines_of(input.spec_bytes()),
            well_formed(input.spec_bytes()),
            rend == rules_end(sl, 0),
            rend < sl.len(),
            forall|k: int| 0 <= k < rend ==> #[trigger] sl[k].contains(124u8),
            ls@.len() == sl.len(),
            forall|k: int| 0 <= k < ls@.len() ==> #[trigger] ls@[k]@ == sl[k],
            i <= rend,
            rules_end(sl, i as nat) == rend,
            rs@.map_values(|p: (u64, u64)| (p.0 as nat, p.1 as nat)) == rules(sl).take(i as int),
        decreases ls@.len() - i,
    {
        assert(sl[i as int].contains(124u8));
        assert(rules_end(sl, i as nat) == rules_end(sl, i as nat + 1));
        proof {
            lemma_rules_end(sl, i as nat + 1);
        }
        assert(i < rend);
        assert(numbers_of(sl[i as int]).len() >= 2);
        assert(fits_u64(sl[i as int]));
        let v = numbers(ls[i].as_slice());
        let ghost before = rs@;
        rs.push((v[0], v[1]));
        proof {
            let f = |p: (u64, u64)| (p.0 as nat, p.1 as nat);
            let ns = numbers_of(sl[i as int]);
            assert(v@[0] as nat == ns[0] && v@[1] as nat == ns[1]);
            assert(rules(sl)[i as int] == (ns[0], ns[1]));
            assert(rs@.map_values(f) =~= before.map_values(f).push((ns[0], ns[1])));
            assert(rules(sl).take(i + 1) =~= rules(sl).take(i as int).push(rules(sl)[i as int]));
        }
        i = i + 1;
    }
    proof {
        if i < ls@.len() {
            assert(!sl[i as int].contains(124u8));
        }
        assert(i == rend);
        assert(rules(sl).take(i as int) =~= rules(sl));
    }
    let ghost m = rules(sl);
    let ghost start = rend + 1;
    let ghost uend = updates_end(sl, start as nat);
    let ghost ts = terms(input.spec_bytes(), reorder);
    proof {
        lemma_updates_end(sl, start as nat);
        assert forall|k: int| 0 <= k < ts.len() implies #[trigger] ts[k] >= 0 by {}
    }
    let mut total: u32 = 0;
    let mut j: usize = i + 1;
    while j < ls.len() && ls[j].len() >= 3
        invariant
            sl == lines_of(input.spec_bytes()),
            well_formed(input.spec_bytes()),
            m == rules(sl),
            rs@.map_values(|p: (u64, u64)| (p.0 as nat, p.1 as nat)) == m,
            start == rules_end(sl, 0) + 1,
            uend == updates_end(sl, start as nat),
            start <= uend <= sl.len(),
            ts == terms(input.spec_bytes(), reorder),
            ts.len() == uend - start,
            forall|k: int| 0 <= k < ts.len() ==> #[trigger] ts[k] >= 0,
            sum(ts) <= u32::MAX,
            ls@.len() == sl.len(),
            forall|k: int| 0 <= k < ls@.len() ==> #[trigger] ls@[k]@ == sl[k],
            start <= j <= uend,
            updates_end(sl, j as nat) == uend,
            total == sum(ts.take(j - start)),
        decreases ls@.len() - j,
    {
        assert(sl[j as int].len() >= 3);
        assert(updates_end(sl, j as nat) == updates_end(sl, j as nat + 1));
        proof {
            lemma_updates_end(sl, j as nat + 1);
        }
        assert(fits_u64(sl[j as int]));
        assert(numbers_of(sl[j as int]).len() >= 1);
        let u = numbers(ls[j].as_slice());
        assert(nats(u@) =~= numbers_of(sl[j as int]));
        let ok = is_ordered(&u, &rs);
        let add: u64 = if ok {
            if reorder { 0 } else { u[u.len() / 2] }
        } else {
            if reorder { middle_page(&u, &rs) } else { 0 }
        };
        proof {
            assert(update_lines(sl)[j - start] == sl[j as int]);
            assert(ts[j - start] == add);
            lemma_sum_prefix_le(ts, j - start + 1);
            assert(ts.take(j - start + 1).drop_last() == ts.take(j - start));
        }
        total = total + add as u32;
        j = j + 1;
    }
    proof {
        if j < ls@.len() {
            assert(sl[j as int].len() < 3);
        }
        assert(j == uend);
        assert(ts.take(j - start) == ts);
    }
    total
}

/// The sum of the middle pages of the updates that are in order.
pub fn part1(input: &str) -> (r: u32)
    requires
        well_formed(input.spec_bytes()),
        sum(terms(input.spec_bytes(), false)) <= u32::MAX,
    ensures
        r == sum(terms(input.spec_bytes(), false)),
{
    answer(input, false)
}

/// The sum of the middle pages of the updates that are out of order, once
/// each is put in the order of the rules.
pub fn part2(input: &str) -> (r: u32)
    requires
        well_formed(input.spec_bytes()),
        sum(terms(input.spec_bytes(), true)) <= u32::MAX,
    ensures
        r == sum(terms(input.spec_bytes(), true)),
{
    answer(input, true)
}

} // verus!
