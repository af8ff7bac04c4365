//! A network map of computers linked in pairs: the groups of three that are
//! all linked to one another and hold a computer whose name starts with `t`.
use vstd::prelude::*;
use vstd::string::StringSliceAdditionalSpecFns;
use crate::day4::one_if;
use crate::text::{lemma_sum_prefix_le, lemma_term_le_sum, lines, lines_of, sum};

verus! {

/// The two-byte name at position `at` of line `l`, read as a number.
pub open spec fn name(l: Seq<u8>, at: int) -> int {
    l[at] as int * 256 + l[at + 1] as int
}

/// The two computers that line `i` links.
pub open spec fn link(ls: Seq<Seq<u8>>, i: int) -> (int, int) {
    (name(ls[i], 0), name(ls[i], 3))
}

/// Some line links `x` and `y`, in either order.
pub open spec fn linked(ls: Seq<Seq<u8>>, x: int, y: int) -> bool {
    exists|i: int| 0 <= i < ls.len() && (#[trigger] link(ls, i) == (x, y) || link(ls, i) == (y, x))
}

/// The computers named in the first `n` lines, in order of first mention.
pub open spec fn nodes_upto(ls: Seq<Seq<u8>>, n: nat) -> Seq<int>
    decreases n,
{
    if n == 0 {
        seq![]
    } else {
        let p = nodes_upto(ls, (n - 1) as nat);
        let (a, b) = link(ls, n - 1);
        let p1 = if p.contains(a) { p } else { p.push(a) };
        if p1.contains(b) { p1 } else { p1.push(b) }
    }
}

pub open spec fn nodes(ls: Seq<Seq<u8>>) -> Seq<int> {
    nodes_upto(ls, ls.len())
}

pub open spec fn t_named(x: int) -> bool {
    x / 256 == 116
}

/// Computers `i < j < k` of `ns` are linked pairwise and one name starts
/// with `t`.
pub open spec fn triangle(ls: Seq<Seq<u8>>, ns: Seq<int>, i: int, j: int, k: int) -> bool {
    linked(ls, ns[i], ns[j]) && linked(ls, ns[j], ns[k]) && linked(ls, ns[i], ns[k]) && (t_named(ns[i])
        || t_named(ns[j]) || t_named(ns[k]))
}

pub open spec fn count_k(ls: Seq<Seq<u8>>, ns: Seq<int>, i: int, j: int) -> int {
    sum(Seq::new((ns.len() - j - 1) as nat, |m: int| one_if(triangle(ls, ns, i, j, j + 1 + m))))
}

pub open spec fn count_j(ls: Seq<Seq<u8>>, ns: Seq<int>, i: int) -> int {
    sum(Seq::new((ns.len() - i - 1) as nat, |m: int| count_k(ls, ns, i, i + 1 + m)))
}

/// The groups of three linked computers with a `t` name, each counted once.
pub open spec fn triangles(s: Seq<u8>) -> int {
    let ls = lines_of(s);
    let ns = nodes(ls);
    sum(Seq::new(ns.len(), |i: int| count_j(ls, ns, i)))
}

/// Every line names two computers: `ab-cd`.
pub open spec fn well_formed(s: Seq<u8>) -> bool {
    forall|i: int| 0 <= i < lines_of(s).len() ==> (#[trigger] lines_of(s)[i]).len() >= 5
}

proof fn lemma_sum_nonneg(s: Seq<int>)
    requires
        forall|k: int| 0 <= k < s.len() ==> #[trigger] s[k] >= 0,
    ensures
        sum(s) >= 0,
{
    lemma_sum_prefix_le(s, 0);
}

fn contains_code(v: &Vec<u32>, x: u32) -> (r: bool)
    ensures
        r == v@.map_values(|c: u32| c as int).contains(x as int),
{
    let ghost m = v@.map_values(|c: u32| c as int);
    let mut i: usize = 0;
    while i < v.len()
        invariant
            m == v@.map_values(|c: u32| c as int),
            i <= v@.len(),
            forall|k: int| 0 <= k < i ==> m[k] != x as int,
        decreases v@.len() - i,
    {
        if v[i] == x {
            assert(m[i as int] == x as int);
            return true;
        }
        i = i + 1;
    }
    false
}

fn linked_exec(links: &Vec<(u32, u32)>, ls: Ghost<Seq<Seq<u8>>>, x: u32, y: u32) -> (r: bool)
    requires
        links@.len() == ls@.len(),
        forall|i: int| 0 <= i < ls@.len() ==> link(ls@, i) == (#[trigger] links@[i].0 as int, links@[i].1 as int),
    ensures
        r == linked(ls@, x as int, y as int),
{
    let mut i: usize = 0;
    while i < links.len()
        invariant
            links@.len() == ls@.len(),
            forall|i: int| 0 <= i < ls@.len() ==> link(ls@, i) == (#[trigger] links@[i].0 as int, links@[i].1 as int),
            i <= links@.len(),
            forall|k: int| 0 <= k < i ==> !(#[trigger] link(ls@, k) == (x as int, y as int) || link(ls@, k) == (y as int, x as int)),
        decreases links@.len() - i,
    {
        let (a, b) = links[i];
        assert(link(ls@, i as int) == (a as int, b as int));
        if (a == x && b == y) || (a == y && b == x) {
            return true;
        }
        i = i + 1;
    }
    false
}

fn read_links(input: &str) -> (r: Vec<(u32, u32)>)
    requires
        well_formed(input.spec_bytes()),
    ensures
        r@.len() == lines_of(input.spec_bytes()).len(),
        forall|i: int|
            0 <= i < r@.len() ==> link(lines_of(input.spec_bytes()), i) == (#[trigger] r@[i].0 as int, r@[i].1 as int),
{
    let ls = lines(input.as_bytes());
    let ghost sl = lines_of(input.spec_bytes());
    let mut r: Vec<(u32, u32)> = Vec::new();
    let mut i: usize = 0;
    while i < ls.len()
        invariant
            sl == lines_of(input.spec_bytes()),
            well_formed(input.spec_bytes()),
            ls@.len() == sl.len(),
            forall|k: int| 0 <= k < ls@.len() ==> #[trigger] ls@[k]@ == sl[k],
            i <= ls@.len(),
            r@.len() == i,
            forall|k: int| 0 <= k < i ==> link(sl, k) == (#[trigger] r@[k].0 as int, r@[k].1 as int),
        decreases ls@.len() - i,
    {
        let l = &ls[i];
        assert(l@ == sl[i as int]);
        assert(l@.len() >= 5);
        let a = (l[0] as u32) * 256 + l[1] as u32;
        let b = (l[3] as u32) * 256 + l[4] as u32;
        r.push((a, b));
        i = i + 1;
    }
    r
}

fn node_list(links: &Vec<(u32, u32)>, ls: Ghost<Seq<Seq<u8>>>) -> (r: Vec<u32>)
    requires
        links@.len() == ls@.len(),
        forall|i: int| 0 <= i < ls@.len() ==> link(ls@, i) == (#[trigger] links@[i].0 as int, links@[i].1 as int),
    ensures
        r@.map_values(|c: u32| c as int) == nodes(ls@),
{
    let mut ns: Vec<u32> = Vec::new();
    let mut i: usize = 0;
    while i < links.len()
        invariant
            links@.len() == ls@.len(),
            forall|i: int| 0 <= i < ls@.len() ==> link(ls@, i) == (#[trigger] links@[i].0 as int, links@[i].1 as int),
            i <= links@.len(),
            ns@.map_values(|c: u32| c as int) == nodes_upto(ls@, i as nat),
        decreases links@.len() - i,
    {
        let (a, b) = links[i];
        assert(link(ls@, i as int) == (a as int, b as int));
        let ghost p = ns@;
        if !contains_code(&ns, a) {
            ns.push(a);
            assert(ns@.map_values(|c: u32| c as int) =~= p.map_values(|c: u32| c as int).push(a as int));
        }
        let ghost p1 = ns@;
        if !contains_code(&ns, b) {
            ns.push(b);
            assert(ns@.map_values(|c: u32| c as int) =~= p1.map_values(|c: u32| c as int).push(b as int));
        }
        i = i + 1;
    }
    ns
}

fn count_k_exec(links: &Vec<(u32, u32)>, ls: Ghost<Seq<Seq<u8>>>, ns: &Vec<u32>, i: usize, j: usize) -> (r: u64)
    requires
        links@.len() == ls@.len(),
        forall|i: int| 0 <= i < ls@.len() ==> link(ls@, i) == (#[trigger] links@[i].0 as int, links@[i].1 as int),
        i < j < ns@.len(),
        count_k(ls@, ns@.map_values(|c: u32| c as int), i as int, j as int) <= u64::MAX,
    ensures
        r == count_k(ls@, ns@.map_values(|c: u32| c as int), i as int, j as int),
{
    let ghost sn = ns@.map_values(|c: u32| c as int);
    let ghost ts = Seq::new((sn.len() - j - 1) as nat, |m: int| one_if(triangle(ls@, sn, i as int, j as int, j + 1 + m)));
    proof {
        assert forall|m: int| 0 <= m < ts.len() implies #[trigger] ts[m] >= 0 by {}
    }
    let ij = linked_exec(links, ls, ns[i], ns[j]);
    let ti = ns[i] / 256 == 116;
    let tj = ns[j] / 256 == 116;
    let n = ns.len();
    let mut total: u64 = 0;
    let mut k: usize = j + 1;
    while k < ns.len()
        invariant
            links@.len() == ls@.len(),
            forall|i: int| 0 <= i < ls@.len() ==> link(ls@, i) == (#[trigger] links@[i].0 as int, links@[i].1 as int),
            sn == ns@.map_values(|c: u32| c as int),
            i < j < ns@.len(),
            ts == Seq::new((sn.len() - j - 1) as nat, |m: int| one_if(triangle(ls@, sn, i as int, j as int, j + 1 + m))),
            forall|m: int| 0 <= m < ts.len() ==> #[trigger] ts[m] >= 0,
            sum(ts) <= u64::MAX,
            ij == linked(ls@, sn[i as int], sn[j as int]),
            ti == t_named(sn[i as int]),
            tj == t_named(sn[j as int]),
            j + 1 <= k <= ns@.len(),
            total == sum(ts.take(k - j - 1)),
        decreases ns@.len() - k,
    {
        let jk = linked_exec(links, ls, ns[j], ns[k]);
        let ik = linked_exec(links, ls, ns[i], ns[k]);
        let tk = ns[k] / 256 == 116;
        let v: u64 = if ij && jk && ik && (ti || tj || tk) { 1 } else { 0 };
        proof {
            assert(ts[k - j - 1] == v);
            lemma_sum_prefix_le(ts, k - j);
            assert(ts.take(k - j).drop_last() == ts.take(k - j - 1));
        }
        total = total + v;
        k = k + 1;
    }
    assert(ts.take(k - j - 1) == ts);
    total
}

proof fn lemma_count_k_nonneg(ls: Seq<Seq<u8>>, ns: Seq<int>, i: int, j: int)
    ensures
        count_k(ls, ns, i, j) >= 0,
{
    let ts = Seq::new((ns.len() - j - 1) as nat, |m: int| one_if(triangle(ls, ns, i, j, j + 1 + m)));
    assert forall|m: int| 0 <= m < ts.len() implies #[trigger] ts[m] >= 0 by {}
    lemma_sum_nonneg(ts);
}

proof fn lemma_count_j_nonneg(ls: Seq<Seq<u8>>, ns: Seq<int>, i: int)
    ensures
        count_j(ls, ns, i) >= 0,
{
    let ts = Seq::new((ns.len() - i - 1) as nat, |m: int| count_k(ls, ns, i, i + 1 + m));
    assert forall|m: int| 0 <= m < ts.len() implies #[trigger] ts[m] >= 0 by {
        lemma_count_k_nonneg(ls, ns, i, i + 1 + m);
    }
    lemma_sum_nonneg(ts);
}

fn count_j_exec(links: &Vec<(u32, u32)>, ls: Ghost<Seq<Seq<u8>>>, ns: &Vec<u32>, i: usize) -> (r: u64)
    requires
        links@.len() == ls@.len(),
        forall|i: int| 0 <= i < ls@.len() ==> link(ls@, i) == (#[trigger] links@[i].0 as int, links@[i].1 as int),
        i < ns@.len(),
        count_j(ls@, ns@.map_values(|c: u32| c as int), i as int) <= u64::MAX,
    ensures
        r == count_j(ls@, ns@.map_values(|c: u32| c as int), i as int),
{
    let ghost sn = ns@.map_values(|c: u32| c as int);
    let ghost ts = Seq::new((sn.len() - i - 1) as nat, |m: int| count_k(ls@, sn, i as int, i + 1 + m));
    proof {
        assert forall|m: int| 0 <= m < ts.len() implies #[trigger] ts[m] >= 0 by {
            lemma_count_k_nonneg(ls@, sn, i as int, i + 1 + m);
        }
    }
    let n = ns.len();
    let mut total: u64 = 0;
    let mut j: usize = i + 1;
    while j < ns.len()
        invariant
            links@.len() == ls@.len(),
            forall|i: int| 0 <= i < ls@.len() ==> link(ls@, i) == (#[trigger] links@[i].0 as int, links@[i].1 as int),
            sn == ns@.map_values(|c: u32| c as int),
            i < ns@.len(),
            n == ns@.len(),
            ts == Seq::new((sn.len() - i - 1) as nat, |m: int| count_k(ls@, sn, i as int, i + 1 + m)),
            forall|m: int| 0 <= m < ts.len() ==> #[trigger] ts[m] >= 0,
            sum(ts) <= u64::MAX,
            i + 1 <= j <= ns@.len(),
            total == sum(ts.take(j - i - 1)),
        decreases ns@.len() - j,
    {
        proof {
            lemma_term_le_sum(ts, j - i - 1);
            assert(ts[j - i - 1] == count_k(ls@, sn, i as int, j as int));
        }
        let v = count_k_exec(links, ls, ns, i, j);
        proof {
            lemma_sum_prefix_le(ts, j - i);
            assert(ts.take(j - i).drop_last() == ts.take(j - i - 1));
        }
        total = total + v;
        j = j + 1;
    }
    assert(ts.take(j - i - 1) == ts);
    total
}

/// The number of groups of three computers, all linked to one another, with
/// at least one whose name starts with `t`.
pub fn part1(input: &str) -> (r: u64)
    requires
        well_formed(input.spec_bytes()),
        triangles(input.spec_bytes()) <= u64::MAX,
    ensures
        r == triangles(input.spec_bytes()),
{
    let links = read_links(input);
    let ghost ls = lines_of(input.spec_bytes());
    let ns = node_list(&links, Ghost(ls));
    let ghost sn = ns@.map_values(|c: u32| c as int);
    let ghost ts = Seq::new(sn.len(), |i: int| count_j(ls, sn, i));
    proof {
        assert forall|m: int| 0 <= m < ts.len() implies #[trigger] ts[m] >= 0 by {
            lemma_count_j_nonneg(ls, sn, m);
        }
    }
    let mut total: u64 = 0;
    let mut i: usize = 0;
    while i < ns.len()
        invariant
            links@.len() == ls.len(),
            forall|i: int| 0 <= i < ls.len() ==> link(ls, i) == (#[trigger] links@[i].0 as int, links@[i].1 as int),
            ls == lines_of(input.spec_bytes()),
            sn == ns@.map_values(|c: u32| c as int),
            sn == nodes(ls),
            ts == Seq::new(sn.len(), |i: int| count_j(ls, sn, i)),
            forall|m: int| 0 <= m < ts.len() ==> #[trigger] ts[m] >= 0,
            sum(ts) <= u64::MAX,
            i <= ns@.len(),
            total == sum(ts.take(i as int)),
        decreases ns@.len() - i,
    {
        proof {
            lemma_term_le_sum(ts, i as int);
        }
        let v = count_j_exec(&links, Ghost(ls), &ns, i);
        proof {
            lemma_sum_prefix_le(ts, i + 1);
            assert(ts.take(i + 1).drop_last() == ts.take(i as int));
        }
        total = total + v;
        i = i + 1;
    }
    assert(ts.take(i as int) == ts);
    total
}

} // verus!
