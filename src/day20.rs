//! A race track through a maze: how many shortcuts through walls, of a
//! bounded length, save at least a given number of steps.
use vstd::prelude::*;
use vstd::string::StringSliceAdditionalSpecFns;
use crate::day10::at;
use crate::day4::one_if;
use crate::text::{cell_sum, grid, grid_of, lemma_cell_sum_bounds, lines_of, row_sum, sum, lemma_sum_prefix_le};

verus! {

/// `(r, c)` is on the map and not a wall.
pub open spec fn open(g: Seq<Seq<u8>>, r: int, c: int) -> bool {
    at(g, r, c) >= 0 && at(g, r, c) != 35
}

/// `(r, c)` can be reached from `(sr, sc)` in at most `k` steps.
pub open spec fn within(g: Seq<Seq<u8>>, sr: int, sc: int, k: nat, r: int, c: int) -> bool
    decreases k,
{
    if k == 0 {
        r == sr && c == sc
    } else {
        let j = (k - 1) as nat;
        within(g, sr, sc, j, r, c) || (open(g, r, c) && (within(g, sr, sc, j, r - 1, c) || within(g, sr, sc, j, r + 1, c)
            || within(g, sr, sc, j, r, c - 1) || within(g, sr, sc, j, r, c + 1)))
    }
}

/// The fewest steps, from `k` on and at most `n`, that reach `(r, c)`.
pub open spec fn dist_from(g: Seq<Seq<u8>>, sr: int, sc: int, k: nat, n: nat, r: int, c: int) -> Option<nat>
    decreases n + 1 - k,
{
    if k > n {
        None
    } else if within(g, sr, sc, k, r, c) {
        Some(k)
    } else {
        dist_from(g, sr, sc, k + 1, n, r, c)
    }
}

/// The map has exactly one cell holding `b`.
pub open spec fn one_cell(g: Seq<Seq<u8>>, b: u8) -> bool {
    &&& exists|r: int, c: int| #[trigger] at(g, r, c) == b as int
    &&& forall|r: int, c: int, r2: int, c2: int|
        #[trigger] at(g, r, c) == b as int && #[trigger] at(g, r2, c2) == b as int ==> r == r2 && c == c2
}

/// The cell holding `b`, where there is one.
pub open spec fn cell_of(g: Seq<Seq<u8>>, b: u8) -> (int, int) {
    choose|r: int, c: int| #[trigger] at(g, r, c) == b as int
}

/// The fewest steps from the start to `(r, c)`, within one step per byte of
/// the map.
pub open spec fn dist(s: Seq<u8>, r: int, c: int) -> Option<nat> {
    let g = lines_of(s);
    dist_from(g, cell_of(g, 83).0, cell_of(g, 83).1, 0, s.len(), r, c)
}

/// The cells the race goes through: those reached in fewer steps than the
/// end, and the end.
pub open spec fn on_track(s: Seq<u8>, r: int, c: int) -> bool {
    let g = lines_of(s);
    let e = cell_of(g, 69);
    dist(s, r, c) is Some && (dist(s, r, c)->Some_0 < dist(s, e.0, e.1)->Some_0 || (r == e.0 && c == e.1))
}

pub open spec fn manhattan(r: int, c: int, r2: int, c2: int) -> int {
    (if r >= r2 { r - r2 } else { r2 - r }) + (if c >= c2 { c - c2 } else { c2 - c })
}

/// A shortcut from `(sr, sc)` to `(er, ec)` through at most `max_distance`
/// steps that saves at least `min_savings` steps.
pub open spec fn cheat_term(s: Seq<u8>, min_savings: int, max_distance: int, er: int, ec: int) -> spec_fn(int, int) -> int {
    |sr: int, sc: int|
        one_if(
            on_track(s, sr, sc) && on_track(s, er, ec) && manhattan(sr, sc, er, ec) <= max_distance && dist(s, sr, sc)->Some_0
                + manhattan(sr, sc, er, ec) + min_savings <= dist(s, er, ec)->Some_0,
        )
}

pub open spec fn end_term(s: Seq<u8>, min_savings: int, max_distance: int) -> spec_fn(int, int) -> int {
    |er: int, ec: int| cell_sum(lines_of(s), cheat_term(s, min_savings, max_distance, er, ec))
}

/// The number of shortcuts that save at least `min_savings` steps.
pub open spec fn cheats(s: Seq<u8>, min_savings: int, max_distance: int) -> int {
    cell_sum(lines_of(s), end_term(s, min_savings, max_distance))
}

/// A rectangular map, one start and one end that the start reaches.
pub open spec fn well_formed(s: Seq<u8>) -> bool {
    let g = lines_of(s);
    &&& g.len() >= 1
    &&& forall|r: int| 0 <= r < g.len() ==> #[trigger] g[r].len() == g[0].len()
    &&& one_cell(g, 83)
    &&& one_cell(g, 69)
    &&& dist(s, cell_of(g, 69).0, cell_of(g, 69).1) is Some
    &&& s.len() < 0x1_0000_0000
    &&& g.len() * g[0].len() < 0x1_0000_0000
}

proof fn lemma_index(w: int, h: int, r: int, c: int)
    requires
        0 <= r < h,
        0 <= c < w,
    ensures
        0 <= r * w + c < h * w,
        forall|r2: int, c2: int| 0 <= r2 < h && 0 <= c2 < w && #[trigger] (r2 * w + c2) == r * w + c ==> r2 == r && c2 == c,
{
    assert(0 <= r * w + c < h * w) by (nonlinear_arith)
        requires 0 <= r < h, 0 <= c < w;
    assert forall|r2: int, c2: int| 0 <= r2 < h && 0 <= c2 < w && #[trigger] (r2 * w + c2) == r * w + c implies r2 == r && c2 == c by {
        assert(r2 == r && c2 == c) by (nonlinear_arith)
            requires 0 <= r < h, 0 <= c < w, 0 <= r2 < h, 0 <= c2 < w, r2 * w + c2 == r * w + c;
    }
}

proof fn lemma_outside(g: Seq<Seq<u8>>, sr: int, sc: int, k: nat, r: int, c: int)
    requires
        at(g, sr, sc) >= 0,
        at(g, r, c) < 0,
    ensures
        !within(g, sr, sc, k, r, c),
    decreases k,
{
    if k > 0 {
        lemma_outside(g, sr, sc, (k - 1) as nat, r, c);
    }
}

proof fn lemma_dist_bound(g: Seq<Seq<u8>>, sr: int, sc: int, k: nat, n: nat, r: int, c: int)
    ensures
        dist_from(g, sr, sc, k, n, r, c) matches Some(j) ==> j <= n,
    decreases n + 1 - k,
{
    if k <= n && !within(g, sr, sc, k, r, c) {
        lemma_dist_bound(g, sr, sc, k + 1, n, r, c);
    }
}

proof fn lemma_fixpoint(g: Seq<Seq<u8>>, sr: int, sc: int, k: nat, m: nat)
    requires
        at(g, sr, sc) >= 0,
        k <= m,
        forall|r: int, c: int| at(g, r, c) >= 0 ==> #[trigger] within(g, sr, sc, k + 1, r, c) == within(g, sr, sc, k, r, c),
    ensures
        forall|r: int, c: int| at(g, r, c) >= 0 ==> #[trigger] within(g, sr, sc, m, r, c) == within(g, sr, sc, k, r, c),
    decreases m - k,
{
    if m > k {
        lemma_fixpoint(g, sr, sc, k, (m - 1) as nat);
        assert forall|r: int, c: int| at(g, r, c) >= 0 implies #[trigger] within(g, sr, sc, m, r, c) == within(g, sr, sc, k, r, c) by {
            let mm = (m - 1) as nat;
            if at(g, r - 1, c) < 0 { lemma_outside(g, sr, sc, mm, r - 1, c); lemma_outside(g, sr, sc, k, r - 1, c); }
            else { assert(within(g, sr, sc, mm, r - 1, c) == within(g, sr, sc, k, r - 1, c)); }
            if at(g, r + 1, c) < 0 { lemma_outside(g, sr, sc, mm, r + 1, c); lemma_outside(g, sr, sc, k, r + 1, c); }
            else { assert(within(g, sr, sc, mm, r + 1, c) == within(g, sr, sc, k, r + 1, c)); }
            if at(g, r, c - 1) < 0 { lemma_outside(g, sr, sc, mm, r, c - 1); lemma_outside(g, sr, sc, k, r, c - 1); }
            else { assert(within(g, sr, sc, mm, r, c - 1) == within(g, sr, sc, k, r, c - 1)); }
            if at(g, r, c + 1) < 0 { lemma_outside(g, sr, sc, mm, r, c + 1); lemma_outside(g, sr, sc, k, r, c + 1); }
            else { assert(within(g, sr, sc, mm, r, c + 1) == within(g, sr, sc, k, r, c + 1)); }
            assert(within(g, sr, sc, mm, r, c) == within(g, sr, sc, k, r, c));
            assert(within(g, sr, sc, m, r, c) == within(g, sr, sc, k + 1, r, c));
        }
    }
}

proof fn lemma_never(g: Seq<Seq<u8>>, sr: int, sc: int, k: nat, n: nat, r: int, c: int)
    requires
        forall|m: nat| m >= k ==> !#[trigger] within(g, sr, sc, m, r, c),
    ensures
        dist_from(g, sr, sc, k, n, r, c) is None,
    decreases n + 1 - k,
{
    if k <= n {
        lemma_never(g, sr, sc, k + 1, n, r, c);
    }
}

pub(crate) fn find_cell(g: &Vec<Vec<u8>>, b: u8) -> (p: (usize, usize))
    requires
        one_cell(grid_of(g@), b),
    ensures
        cell_of(grid_of(g@), b) == (p.0 as int, p.1 as int),
        at(grid_of(g@), p.0 as int, p.1 as int) == b as int,
{
    let ghost sg = grid_of(g@);
    let mut r: usize = 0;
    while r < g.len()
        invariant
            sg == grid_of(g@),
            one_cell(sg, b),
            r <= g@.len(),
            forall|i: int, j: int| 0 <= i < r ==> #[trigger] at(sg, i, j) != b as int,
        decreases g@.len() - r,
    {
        let mut c: usize = 0;
        while c < g[r].len()
            invariant
                sg == grid_of(g@),
                one_cell(sg, b),
                r < g@.len(),
                c <= g@[r as int]@.len(),
                forall|i: int, j: int| 0 <= i < r ==> #[trigger] at(sg, i, j) != b as int,
                forall|j: int| 0 <= j < c ==> #[trigger] at(sg, r as int, j) != b as int,
            decreases g@[r as int]@.len() - c,
        {
            if g[r][c] == b {
                proof {
                    assert(at(sg, r as int, c as int) == b as int);
                    let (r2, c2) = choose|r2: int, c2: int| #[trigger] at(sg, r2, c2) == b as int;
                    assert(r2 == r && c2 == c);
                }
                return (r, c);
            }
            c = c + 1;
        }
        proof {
            assert forall|i: int, j: int| 0 <= i < r + 1 implies #[trigger] at(sg, i, j) != b as int by {
                if i == r && !(0 <= j < c) {
                    assert(at(sg, i, j) == -1);
                }
            }
        }
        r = r + 1;
    }
    proof {
        let (r2, c2) = choose|r2: int, c2: int| #[trigger] at(sg, r2, c2) == b as int;
        assert(at(sg, r2, c2) == b as int);
        if !(0 <= r2 < r) {
            assert(at(sg, r2, c2) == -1);
        }
    }
    (0, 0)
}

pub open spec fn rect(g: Seq<Seq<u8>>, w: int) -> bool {
    forall|r: int| 0 <= r < g.len() ==> #[trigger] g[r].len() == w
}

pub open spec fn dist_value(g: Seq<Seq<u8>>, sr: int, sc: int, n: nat, r: int, c: int) -> int {
    match dist_from(g, sr, sc, 0, n, r, c) {
        Some(k) => k as int,
        None => -1,
    }
}

/// After `k` rounds, `seen` and `dv` hold for `(r, c)` whether it is reached
/// and its distance, or -1 while it is not reached.
pub open spec fn cell_ok(g: Seq<Seq<u8>>, sr: int, sc: int, n: nat, k: nat, seen: bool, dv: int, r: int, c: int) -> bool {
    &&& seen == within(g, sr, sc, k, r, c)
    &&& within(g, sr, sc, k, r, c) ==> dv == dist_value(g, sr, sc, n, r, c)
    &&& !within(g, sr, sc, k, r, c) ==> dv == -1 && dist_from(g, sr, sc, 0, n, r, c) == dist_from(g, sr, sc, k + 1, n, r, c)
}

/// The fewest steps from `(sr, sc)` to each cell, row by row, or -1.
#[verifier::rlimit(100)]
fn distances(g: &Vec<Vec<u8>>, w: usize, sr: usize, sc: usize, n: u64) -> (d: Vec<i64>)
    requires
        rect(grid_of(g@), w as int),
        g@.len() * w < 0x1_0000_0000,
        at(grid_of(g@), sr as int, sc as int) >= 0,
        n < 0x1_0000_0000,
    ensures
        d@.len() == g@.len() * w,
        forall|r: int, c: int|
            0 <= r < g@.len() && 0 <= c < w ==> #[trigger] d@[r * w + c] == dist_value(grid_of(g@), sr as int, sc as int, n as nat, r, c),
{
    let ghost sg = grid_of(g@);
    let h = g.len();
    let total = h * w;
    proof {
        lemma_index(w as int, h as int, sr as int, sc as int);
    }
    let start_i = sr * w + sc;
    let mut cur: Vec<bool> = Vec::new();
    let mut d: Vec<i64> = Vec::new();
    let mut j: usize = 0;
    while j < total
        invariant
            j <= total,
            total == h * w,
            cur@.len() == j,
            d@.len() == j,
            start_i == sr * w + sc,
            forall|i: int| 0 <= i < j ==> #[trigger] cur@[i] == (i == sr * w + sc),
            forall|i: int| 0 <= i < j ==> #[trigger] d@[i] == (if i == sr * w + sc { 0 } else { -1 }),
        decreases total - j,
    {
        let here = j == start_i;
        cur.push(here);
        d.push(if here { 0 } else { -1 });
        j = j + 1;
    }
    proof {
        lemma_index(w as int, h as int, sr as int, sc as int);
        assert forall|r: int, c: int| 0 <= r < h && 0 <= c < w implies cell_ok(sg, sr as int, sc as int, n as nat, 0, #[trigger] cur@[r * w + c], d@[r * w + c] as int, r, c) by {
            lemma_index(w as int, h as int, r, c);
        }
    }
    let mut k: u64 = 0;
    while k < n
        invariant
            sg == grid_of(g@),
            rect(sg, w as int),
            h == g@.len(),
            total == h * w,
            total < 0x1_0000_0000,
            at(sg, sr as int, sc as int) >= 0,
            n < 0x1_0000_0000,
            k <= n,
            cur@.len() == total,
            d@.len() == total,
            forall|r: int, c: int| 0 <= r < h && 0 <= c < w ==> cell_ok(sg, sr as int, sc as int, n as nat, k as nat, #[trigger] cur@[r * w + c], d@[r * w + c] as int, r, c),
        decreases n - k,
    {
        let mut next: Vec<bool> = Vec::new();
        let mut nd: Vec<i64> = Vec::new();
        let mut changed = false;
        let mut i: usize = 0;
        while i < total
            invariant
                sg == grid_of(g@),
                rect(sg, w as int),
                h == g@.len(),
                total == h * w,
                total < 0x1_0000_0000,
                at(sg, sr as int, sc as int) >= 0,
                k < n,
                n < 0x1_0000_0000,
                cur@.len() == total,
                d@.len() == total,
                forall|r: int, c: int| 0 <= r < h && 0 <= c < w ==> cell_ok(sg, sr as int, sc as int, n as nat, k as nat, #[trigger] cur@[r * w + c], d@[r * w + c] as int, r, c),
                i <= total,
                next@.len() == i,
                nd@.len() == i,
                forall|r: int, c: int| 0 <= r < h && 0 <= c < w && r * w + c < i ==> cell_ok(sg, sr as int, sc as int, n as nat, (k + 1) as nat, #[trigger] next@[r * w + c], nd@[r * w + c] as int, r, c),
                !changed ==> forall|r: int, c: int| 0 <= r < h && 0 <= c < w && r * w + c < i ==> #[trigger] within(sg, sr as int, sc as int, (k + 1) as nat, r, c) == within(sg, sr as int, sc as int, k as nat, r, c),
            decreases total - i,
        {
            let r = i / w;
            let c = i % w;
            proof {
                assert(r * w + c == i && 0 <= r < h && 0 <= c < w) by (nonlinear_arith)
                    requires r == i / w, c == i % w, i < total, total == h * w, w > 0;
                lemma_index(w as int, h as int, r as int, c as int);
                assert(r > 0 ==> i >= w) by (nonlinear_arith)
                    requires r * w + c == i, c >= 0, w > 0;
                assert(r + 1 < h ==> i + w < total) by (nonlinear_arith)
                    requires r * w + c == i, c < w, total == h * w;
                assert(c + 1 < w ==> i + 1 < total) by (nonlinear_arith)
                    requires r * w + c == i, r < h, total == h * w;
                assert(cur@[r * w + c] == within(sg, sr as int, sc as int, k as nat, r as int, c as int));
            }
            let here = cur[i];
            let open_here = g[r][c] != 35;
            let up = r > 0 && cur[i - w];
            let down = r + 1 < h && cur[i + w];
            let left = c > 0 && cur[i - 1];
            let right = c + 1 < w && cur[i + 1];
            let v = here || (open_here && (up || down || left || right));
            proof {
                let kk = k as nat;
                if r > 0 {
                    lemma_index(w as int, h as int, r - 1, c as int);
                    assert((r - 1) * w + c == i - w) by (nonlinear_arith) requires r * w + c == i;
                    assert(cur@[(r - 1) * w + c] == within(sg, sr as int, sc as int, kk, r - 1, c as int));
                }
                else { lemma_outside(sg, sr as int, sc as int, kk, r - 1, c as int); }
                if r + 1 < h {
                    lemma_index(w as int, h as int, r + 1, c as int);
                    assert((r + 1) * w + c == i + w) by (nonlinear_arith) requires r * w + c == i;
                    assert(cur@[(r + 1) * w + c] == within(sg, sr as int, sc as int, kk, r + 1, c as int));
                }
                else { lemma_outside(sg, sr as int, sc as int, kk, r + 1, c as int); }
                if c > 0 {
                    lemma_index(w as int, h as int, r as int, c - 1);
                    assert(cur@[r * w + (c - 1)] == within(sg, sr as int, sc as int, kk, r as int, c - 1));
                }
                else { lemma_outside(sg, sr as int, sc as int, kk, r as int, c - 1); }
                if c + 1 < w {
                    lemma_index(w as int, h as int, r as int, c + 1);
                    assert(cur@[r * w + (c + 1)] == within(sg, sr as int, sc as int, kk, r as int, c + 1));
                }
                else { lemma_outside(sg, sr as int, sc as int, kk, r as int, c + 1); }
                assert(sg[r as int].len() == w);
                assert(open(sg, r as int, c as int) == open_here);
                assert(v == within(sg, sr as int, sc as int, (k + 1) as nat, r as int, c as int));
            }
            let dv: i64 = if here { d[i] } else if v { (k + 1) as i64 } else { -1 };
            proof {
                let (ri, ci) = (r as int, c as int);
                let sri = sr as int;
                let sci = sc as int;
                assert(!here && v ==> dist_from(sg, sri, sci, (k + 1) as nat, n as nat, ri, ci) == Some((k + 1) as nat));
                assert(!v ==> dist_from(sg, sri, sci, (k + 1) as nat, n as nat, ri, ci) == dist_from(sg, sri, sci, (k + 2) as nat, n as nat, ri, ci));
                assert(!v ==> !here);
            }
            if v != here {
                changed = true;
            }
            let ghost old_next = next@;
            let ghost old_nd = nd@;
            next.push(v);
            nd.push(dv);
            proof {
                let (ri, ci) = (r as int, c as int);
                assert(within(sg, sr as int, sc as int, (k + 1) as nat, ri, ci) ==> dv == dist_value(sg, sr as int, sc as int, n as nat, ri, ci));
                assert forall|r2: int, c2: int| 0 <= r2 < h && 0 <= c2 < w && r2 * w + c2 < i + 1 implies cell_ok(sg, sr as int, sc as int, n as nat, (k + 1) as nat, #[trigger] next@[r2 * w + c2], nd@[r2 * w + c2] as int, r2, c2) by {
                    lemma_index(w as int, h as int, r2, c2);
                    if r2 * w + c2 < i {
                        assert(next@[r2 * w + c2] == old_next[r2 * w + c2]);
                        assert(nd@[r2 * w + c2] == old_nd[r2 * w + c2]);
                    } else {
                        assert(r2 == ri && c2 == ci);
                    }
                }
                if !changed {
                    assert forall|r2: int, c2: int| 0 <= r2 < h && 0 <= c2 < w && r2 * w + c2 < i + 1 implies #[trigger] within(sg, sr as int, sc as int, (k + 1) as nat, r2, c2) == within(sg, sr as int, sc as int, k as nat, r2, c2) by {
                        lemma_index(w as int, h as int, r2, c2);
                        if r2 * w + c2 >= i {
                            assert(r2 == r && c2 == c);
                        }
                    }
                }
            }
            i = i + 1;
        }
        proof {
            assert forall|r: int, c: int| 0 <= r < h && 0 <= c < w implies cell_ok(sg, sr as int, sc as int, n as nat, (k + 1) as nat, #[trigger] next@[r * w + c], nd@[r * w + c] as int, r, c) by {
                lemma_index(w as int, h as int, r, c);
            }
        }
        if !changed {
            proof {
                assert forall|r: int, c: int| at(sg, r, c) >= 0 implies #[trigger] within(sg, sr as int, sc as int, (k + 1) as nat, r, c) == within(sg, sr as int, sc as int, k as nat, r, c) by {
                    lemma_index(w as int, h as int, r, c);
                }
                assert forall|r: int, c: int| 0 <= r < h && 0 <= c < w && !within(sg, sr as int, sc as int, k as nat, r, c) implies dist_from(sg, sr as int, sc as int, (k + 1) as nat, n as nat, r, c) is None by {
                    lemma_index(w as int, h as int, r, c);
                    assert forall|m: nat| m >= k + 1 implies !#[trigger] within(sg, sr as int, sc as int, m, r, c) by {
                        lemma_fixpoint(sg, sr as int, sc as int, k as nat, m);
                    }
                    lemma_never(sg, sr as int, sc as int, (k + 1) as nat, n as nat, r, c);
                }
                assert forall|r: int, c: int| 0 <= r < h && 0 <= c < w implies #[trigger] d@[r * w + c] == dist_value(sg, sr as int, sc as int, n as nat, r, c) by {
                    lemma_index(w as int, h as int, r, c);
                    assert(cur@[r * w + c] == within(sg, sr as int, sc as int, k as nat, r, c));
                    if !within(sg, sr as int, sc as int, k as nat, r, c) {
                        assert(dist_from(sg, sr as int, sc as int, (k + 1) as nat, n as nat, r, c) is None);
                    }
                }
            }
            return d;
        }
        d = nd;
        cur = next;
        k = k + 1;
    }
    proof {
        assert forall|r: int, c: int| 0 <= r < h && 0 <= c < w implies #[trigger] d@[r * w + c] == dist_value(sg, sr as int, sc as int, n as nat, r, c) by {
            lemma_index(w as int, h as int, r, c);
            assert(cur@[r * w + c] == within(sg, sr as int, sc as int, k as nat, r, c));
            if !within(sg, sr as int, sc as int, k as nat, r, c) {
                assert(dist_from(sg, sr as int, sc as int, (k + 1) as nat, n as nat, r, c) is None);
            }
        }
    }
    d
}

/// What the distances `d` of a race on `s` say about `(r, c)`.
pub open spec fn dists_ok(s: Seq<u8>, d: Seq<i64>, w: int) -> bool {
    let g = lines_of(s);
    &&& d.len() == g.len() * w
    &&& forall|r: int, c: int|
        0 <= r < g.len() && 0 <= c < w ==> #[trigger] d[r * w + c] as int == dist_value(g, cell_of(g, 83).0, cell_of(g, 83).1, s.len(), r, c)
}

fn track_exec(d: &Vec<i64>, w: usize, h: usize, r: usize, c: usize, er: usize, ec: usize, de: i64) -> (b: bool)
    requires
        r < h,
        c < w,
        h * w == d@.len(),
        h * w < 0x1_0000_0000,
    ensures
        b == (d@[r * w + c] >= 0 && (d@[r * w + c] < de || (r == er && c == ec))),
{
    proof {
        lemma_index(w as int, h as int, r as int, c as int);
    }
    let v = d[r * w + c];
    v >= 0 && (v < de || (r == er && c == ec))
}

/// The number of shortcuts that end at `(er, ec)` and save at least
/// `min_savings` steps.
fn count_for_end(s: Ghost<Seq<u8>>, d: &Vec<i64>, w: usize, h: usize, end: (usize, usize), er: usize, ec: usize, min_savings: i64, max_distance: i64) -> (n: u64)
    requires
        well_formed(s@),
        h == lines_of(s@).len(),
        rect(lines_of(s@), w as int),
        dists_ok(s@, d@, w as int),
        cell_of(lines_of(s@), 69) == (end.0 as int, end.1 as int),
        end.0 < h,
        end.1 < w,
        er < h,
        ec < w,
        h * w < 0x1_0000_0000,
        1 <= min_savings < 0x1_0000_0000,
        0 <= max_distance < 0x1_0000_0000,
        end_term(s@, min_savings as int, max_distance as int)(er as int, ec as int) <= u32::MAX,
    ensures
        n == end_term(s@, min_savings as int, max_distance as int)(er as int, ec as int),
{
    let ghost sg = lines_of(s@);
    let ghost t = cheat_term(s@, min_savings as int, max_distance as int, er as int, ec as int);
    let ghost rows = Seq::new(sg.len(), |i: int| row_sum(sg, t, i));
    proof {
        assert forall|i: int, j: int| #[trigger] t(i, j) >= 0 by {}
        assert forall|i: int| 0 <= i < rows.len() implies #[trigger] rows[i] >= 0 by {
            lemma_cell_sum_bounds(sg, t, i, 0);
        }
        lemma_index(w as int, h as int, end.0 as int, end.1 as int);
        lemma_index(w as int, h as int, er as int, ec as int);
    }
    let de = d[end.0 * w + end.1];
    let e_on = track_exec(d, w, h, er, ec, end.0, end.1, de);
    let dend = d[er * w + ec];
    let mut total: u64 = 0;
    let mut r: usize = 0;
    while r < h
        invariant
            well_formed(s@),
            sg == lines_of(s@),
            h == sg.len(),
            rect(sg, w as int),
            dists_ok(s@, d@, w as int),
            cell_of(sg, 69) == (end.0 as int, end.1 as int),
            de == d@[end.0 * w + end.1],
            dend == d@[er * w + ec],
            e_on == (dend >= 0 && (dend < de || (er == end.0 && ec == end.1))),
            er < h,
            ec < w,
            end.0 < h,
            end.1 < w,
            h * w < 0x1_0000_0000,
            1 <= min_savings < 0x1_0000_0000,
            0 <= max_distance < 0x1_0000_0000,
            t == cheat_term(s@, min_savings as int, max_distance as int, er as int, ec as int),
            rows == Seq::new(sg.len(), |i: int| row_sum(sg, t, i)),
            forall|i: int| 0 <= i < rows.len() ==> #[trigger] rows[i] >= 0,
            forall|i: int, j: int| #[trigger] t(i, j) >= 0,
            sum(rows) <= u32::MAX,
            r <= h,
            total == sum(rows.take(r as int)),
        decreases h - r,
    {
        let ghost cells = Seq::new(sg[r as int].len(), |j: int| t(r as int, j));
        let mut row: u64 = 0;
        let mut c: usize = 0;
        proof {
            lemma_sum_prefix_le(rows, r + 1);
            assert(rows.take(r + 1).drop_last() == rows.take(r as int));
            assert(sg[r as int].len() == w);
        }
        while c < w
            invariant
                well_formed(s@),
                sg == lines_of(s@),
                h == sg.len(),
                rect(sg, w as int),
                dists_ok(s@, d@, w as int),
                cell_of(sg, 69) == (end.0 as int, end.1 as int),
                de == d@[end.0 * w + end.1],
                dend == d@[er * w + ec],
                e_on == (dend >= 0 && (dend < de || (er == end.0 && ec == end.1))),
                er < h,
                ec < w,
                end.0 < h,
                end.1 < w,
                h * w < 0x1_0000_0000,
                r < h,
                1 <= min_savings < 0x1_0000_0000,
                0 <= max_distance < 0x1_0000_0000,
                t == cheat_term(s@, min_savings as int, max_distance as int, er as int, ec as int),
                cells == Seq::new(sg[r as int].len(), |j: int| t(r as int, j)),
                sg[r as int].len() == w,
                forall|i: int, j: int| #[trigger] t(i, j) >= 0,
                total + sum(cells) <= u32::MAX,
                c <= w,
                row == sum(cells.take(c as int)),
            decreases w - c,
        {
            proof {
                assert forall|j: int| 0 <= j < cells.len() implies #[trigger] cells[j] >= 0 by {}
                lemma_sum_prefix_le(cells, c + 1);
                assert(cells.take(c + 1).drop_last() == cells.take(c as int));
                lemma_index(w as int, h as int, r as int, c as int);
                assert(h < 0x1_0000_0000 && w < 0x1_0000_0000) by (nonlinear_arith)
                    requires h * w < 0x1_0000_0000, r < h, c < w;
                let g0 = cell_of(sg, 83);
                lemma_dist_bound(sg, g0.0, g0.1, 0, s@.len(), r as int, c as int);
                lemma_dist_bound(sg, g0.0, g0.1, 0, s@.len(), er as int, ec as int);
                assert(d@[r * w + c] as int == dist_value(sg, g0.0, g0.1, s@.len(), r as int, c as int));
                assert(-1 <= d@[r * w + c] < 0x1_0000_0000);
            }
            let s_on = track_exec(d, w, h, r, c, end.0, end.1, de);
            let ds = d[r * w + c];
            let dr: usize = if r >= er { r - er } else { er - r };
            let dc: usize = if c >= ec { c - ec } else { ec - c };
            let man: i64 = (dr as i64) + (dc as i64);
            let ok = s_on && e_on && man <= max_distance && ds + man + min_savings <= dend;
            let v: u64 = if ok { 1 } else { 0 };
            proof {
                let g0 = cell_of(sg, 83);
                assert(d@[r * w + c] as int == dist_value(sg, g0.0, g0.1, s@.len(), r as int, c as int));
                assert(d@[er * w + ec] as int == dist_value(sg, g0.0, g0.1, s@.len(), er as int, ec as int));
                assert(d@[end.0 * w + end.1] as int == dist_value(sg, g0.0, g0.1, s@.len(), end.0 as int, end.1 as int));
                assert(cells[c as int] == v);
            }
            row = row + v;
            c = c + 1;
        }
        proof {
            assert(cells.take(c as int) == cells);
        }
        total = total + row;
        r = r + 1;
    }
    assert(rows.take(r as int) == rows);
    total
}

/// A race track.
pub struct Grid {
    pub rows: Vec<Vec<u8>>,
}

impl Grid {
    /// The number of shortcuts of at most `max_distance` steps, from a cell
    /// of the race to a later one, that save at least `min_savings` steps.
    pub fn get_cheat_count(input: &str, min_savings: i32, max_distance: usize) -> (n: u32)
        requires
            well_formed(input.spec_bytes()),
            1 <= min_savings,
            max_distance < 0x1_0000_0000,
            cheats(input.spec_bytes(), min_savings as int, max_distance as int) <= u32::MAX,
        ensures
            n == cheats(input.spec_bytes(), min_savings as int, max_distance as int),
    {
        let ghost s = input.spec_bytes();
        let b = input.as_bytes();
        let g = grid(b);
        let ghost sg = grid_of(g@);
        let h = g.len();
        let w = g[0].len();
        let start = find_cell(&g, 83);
        let end = find_cell(&g, 69);
        let n = b.len() as u64;
        proof {
            assert(g@[start.0 as int]@.len() == w);
        }
        let d = distances(&g, w, start.0, start.1, n);
        proof {
            assert forall|r: int, c: int| 0 <= r < sg.len() && 0 <= c < w implies #[trigger] d@[r * w + c] as int == dist_value(
                sg,
                cell_of(sg, 83).0,
                cell_of(sg, 83).1,
                s.len(),
                r,
                c,
            ) by {
                assert(d@[r * w + c] == dist_value(sg, start.0 as int, start.1 as int, n as nat, r, c));
            }
            assert(g@[end.0 as int]@.len() == w);
        }
        let min = min_savings as i64;
        let maxd = max_distance as i64;
        let ghost t = end_term(s, min as int, maxd as int);
        let ghost rows = Seq::new(sg.len(), |i: int| row_sum(sg, t, i));
        proof {
            assert forall|i: int, j: int| #[trigger] t(i, j) >= 0 by {
                let ti = cheat_term(s, min as int, maxd as int, i, j);
                assert forall|x: int, y: int| #[trigger] ti(x, y) >= 0 by {}
                let rs = Seq::new(sg.len(), |x: int| row_sum(sg, ti, x));
                assert forall|x: int| 0 <= x < rs.len() implies #[trigger] rs[x] >= 0 by {
                    lemma_cell_sum_bounds(sg, ti, x, 0);
                }
                lemma_sum_prefix_le(rs, rs.len() as int);
                assert(rs.take(rs.len() as int) == rs);
            }
            assert forall|i: int| 0 <= i < rows.len() implies #[trigger] rows[i] >= 0 by {
                lemma_cell_sum_bounds(sg, t, i, 0);
            }
        }
        let mut total: u64 = 0;
        let mut r: usize = 0;
        while r < h
            invariant
                s == input.spec_bytes(),
                well_formed(s),
                sg == lines_of(s),
                h == sg.len(),
                w == sg[0].len(),
                rect(sg, w as int),
                dists_ok(s, d@, w as int),
                cell_of(sg, 69) == (end.0 as int, end.1 as int),
                at(sg, end.0 as int, end.1 as int) == 69,
                h * w < 0x1_0000_0000,
                1 <= min < 0x1_0000_0000,
                0 <= maxd < 0x1_0000_0000,
                min == min_savings,
                maxd == max_distance,
                t == end_term(s, min as int, maxd as int),
                rows == Seq::new(sg.len(), |i: int| row_sum(sg, t, i)),
                forall|i: int| 0 <= i < rows.len() ==> #[trigger] rows[i] >= 0,
                forall|i: int, j: int| #[trigger] t(i, j) >= 0,
                sum(rows) <= u32::MAX,
                r <= h,
                total == sum(rows.take(r as int)),
            decreases h - r,
        {
            let ghost cells = Seq::new(sg[r as int].len(), |j: int| t(r as int, j));
            let mut row: u64 = 0;
            let mut c: usize = 0;
            proof {
                lemma_sum_prefix_le(rows, r + 1);
                assert(rows.take(r + 1).drop_last() == rows.take(r as int));
                assert(sg[r as int].len() == w);
            }
            while c < w
                invariant
                    s == input.spec_bytes(),
                    well_formed(s),
                    sg == lines_of(s),
                    h == sg.len(),
                    rect(sg, w as int),
                    dists_ok(s, d@, w as int),
                    cell_of(sg, 69) == (end.0 as int, end.1 as int),
                    at(sg, end.0 as int, end.1 as int) == 69,
                    h * w < 0x1_0000_0000,
                    r < h,
                    1 <= min < 0x1_0000_0000,
                    0 <= maxd < 0x1_0000_0000,
                    t == end_term(s, min as int, maxd as int),
                    cells == Seq::new(sg[r as int].len(), |j: int| t(r as int, j)),
                    sg[r as int].len() == w,
                    forall|i: int, j: int| #[trigger] t(i, j) >= 0,
                    total + sum(cells) <= u32::MAX,
                    c <= w,
                    row == sum(cells.take(c as int)),
                decreases w - c,
            {
                proof {
                    assert forall|j: int| 0 <= j < cells.len() implies #[trigger] cells[j] >= 0 by {}
                    lemma_sum_prefix_le(cells, c + 1);
                    assert(cells.take(c + 1).drop_last() == cells.take(c as int));
                }
                let v = count_for_end(Ghost(s), &d, w, h, end, r, c, min, maxd);
                row = row + v;
                c = c + 1;
            }
            proof {
                assert(cells.take(c as int) == cells);
            }
            total = total + row;
            r = r + 1;
        }
        assert(rows.take(r as int) == rows);
        total as u32
    }
}

/// The shortcuts of at most 2 steps that save at least 100.
pub fn part1(input: &str) -> (n: u32)
    requires
        well_formed(input.spec_bytes()),
        cheats(input.spec_bytes(), 100, 2) <= u32::MAX,
    ensures
        n == cheats(input.spec_bytes(), 100, 2),
{
    Grid::get_cheat_count(input, 100, 2)
}

/// The shortcuts of at most 20 steps that save at least 100.
pub fn part2(input: &str) -> (n: u32)
    requires
        well_formed(input.spec_bytes()),
        cheats(input.spec_bytes(), 100, 20) <= u32::MAX,
    ensures
        n == cheats(input.spec_bytes(), 100, 20),
{
    Grid::get_cheat_count(input, 100, 20)
}

} // verus!
