//! Garden plots: regions of one plant, and the price of fencing each by its
//! area times its perimeter or its number of sides.
use vstd::prelude::*;
use vstd::string::StringSliceAdditionalSpecFns;
use crate::day10::at;
use crate::day4::{at_signed, one_if};
use crate::text::{cell_sum, grid, grid_of, lemma_cell_sum_bounds, lines_of, row_sum, sum, lemma_sum_prefix_le};

verus! {

/// `(r, c)` is on the map and grows the plant that `(sr, sc)` grows.
pub open spec fn same(g: Seq<Seq<u8>>, sr: int, sc: int, r: int, c: int) -> bool {
    at(g, r, c) >= 0 && at(g, r, c) == at(g, sr, sc)
}

/// `(r, c)` can be reached from `(sr, sc)` in at most `k` steps through
/// cells of the same plant.
pub open spec fn within(g: Seq<Seq<u8>>, sr: int, sc: int, k: nat, r: int, c: int) -> bool
    decreases k,
{
    if k == 0 {
        r == sr && c == sc
    } else {
        let j = (k - 1) as nat;
        within(g, sr, sc, j, r, c) || (same(g, sr, sc, r, c) && (within(g, sr, sc, j, r - 1, c) || within(g, sr, sc, j, r + 1, c)
            || within(g, sr, sc, j, r, c - 1) || within(g, sr, sc, j, r, c + 1)))
    }
}

/// The fewest steps, from `k` on and at most `n`, that reach `(r, c)`.
pub open spec fn dist_from(g: Seq<Seq<u8>>, sr: int, sc: int, k: nat, n: nat, r: int, c: int) -> Option<nat>
    decreases n + 1 - k,
{
    if k > n {
        None
    } else if within(g, sr, sc, k, r, c) {
        Some(k)
    } else {
        dist_from(g, sr, sc, k + 1, n, r, c)
    }
}

proof fn lemma_index(w: int, h: int, r: int, c: int)
    requires
        0 <= r < h,
        0 <= c < w,
    ensures
        0 <= r * w + c < h * w,
        forall|r2: int, c2: int| 0 <= r2 < h && 0 <= c2 < w && #[trigger] (r2 * w + c2) == r * w + c ==> r2 == r && c2 == c,
{
    assert(0 <= r * w + c < h * w) by (nonlinear_arith)
        requires 0 <= r < h, 0 <= c < w;
    assert forall|r2: int, c2: int| 0 <= r2 < h && 0 <= c2 < w && #[trigger] (r2 * w + c2) == r * w + c implies r2 == r && c2 == c by {
        assert(r2 == r && c2 == c) by (nonlinear_arith)
            requires 0 <= r < h, 0 <= c < w, 0 <= r2 < h, 0 <= c2 < w, r2 * w + c2 == r * w + c;
    }
}

proof fn lemma_outside(g: Seq<Seq<u8>>, sr: int, sc: int, k: nat, r: int, c: int)
    requires
        at(g, sr, sc) >= 0,
        at(g, r, c) < 0,
    ensures
        !within(g, sr, sc, k, r, c),
    decreases k,
{
    if k > 0 {
        lemma_outside(g, sr, sc, (k - 1) as nat, r, c);
    }
}

proof fn lemma_dist_bound(g: Seq<Seq<u8>>, sr: int, sc: int, k: nat, n: nat, r: int, c: int)
    ensures
        dist_from(g, sr, sc, k, n, r, c) matches Some(j) ==> j <= n,
    decreases n + 1 - k,
{
    if k <= n && !within(g, sr, sc, k, r, c) {
        lemma_dist_bound(g, sr, sc, k + 1, n, r, c);
    }
}

proof fn lemma_fixpoint(g: Seq<Seq<u8>>, sr: int, sc: int, k: nat, m: nat)
    requires
        at(g, sr, sc) >= 0,
        k <= m,
        forall|r: int, c: int| at(g, r, c) >= 0 ==> #[trigger] within(g, sr, sc, k + 1, r, c) == within(g, sr, sc, k, r, c),
    ensures
        forall|r: int, c: int| at(g, r, c) >= 0 ==> #[trigger] within(g, sr, sc, m, r, c) == within(g, sr, sc, k, r, c),
    decreases m - k,
{
    if m > k {
        lemma_fixpoint(g, sr, sc, k, (m - 1) as nat);
        assert forall|r: int, c: int| at(g, r, c) >= 0 implies #[trigger] within(g, sr, sc, m, r, c) == within(g, sr, sc, k, r, c) by {
            let mm = (m - 1) as nat;
            if at(g, r - 1, c) < 0 { lemma_outside(g, sr, sc, mm, r - 1, c); lemma_outside(g, sr, sc, k, r - 1, c); }
            else { assert(within(g, sr, sc, mm, r - 1, c) == within(g, sr, sc, k, r - 1, c)); }
            if at(g, r + 1, c) < 0 { lemma_outside(g, sr, sc, mm, r + 1, c); lemma_outside(g, sr, sc, k, r + 1, c); }
            else { assert(within(g, sr, sc, mm, r + 1, c) == within(g, sr, sc, k, r + 1, c)); }
            if at(g, r, c - 1) < 0 { lemma_outside(g, sr, sc, mm, r, c - 1); lemma_outside(g, sr, sc, k, r, c - 1); }
            else { assert(within(g, sr, sc, mm, r, c - 1) == within(g, sr, sc, k, r, c - 1)); }
            if at(g, r, c + 1) < 0 { lemma_outside(g, sr, sc, mm, r, c + 1); lemma_outside(g, sr, sc, k, r, c + 1); }
            else { assert(within(g, sr, sc, mm, r, c + 1) == within(g, sr, sc, k, r, c + 1)); }
            assert(within(g, sr, sc, mm, r, c) == within(g, sr, sc, k, r, c));
            assert(within(g, sr, sc, m, r, c) == within(g, sr, sc, k + 1, r, c));
        }
    }
}

proof fn lemma_never(g: Seq<Seq<u8>>, sr: int, sc: int, k: nat, n: nat, r: int, c: int)
    requires
        forall|m: nat| m >= k ==> !#[trigger] within(g, sr, sc, m, r, c),
    ensures
        dist_from(g, sr, sc, k, n, r, c) is None,
    decreases n + 1 - k,
{
    if k <= n {
        lemma_never(g, sr, sc, k + 1, n, r, c);
    }
}

pub open spec fn rect(g: Seq<Seq<u8>>, w: int) -> bool {
    forall|r: int| 0 <= r < g.len() ==> #[trigger] g[r].len() == w
}

pub open spec fn dist_value(g: Seq<Seq<u8>>, sr: int, sc: int, n: nat, r: int, c: int) -> int {
    match dist_from(g, sr, sc, 0, n, r, c) {
        Some(k) => k as int,
        None => -1,
    }
}

/// After `k` rounds, `seen` and `dv` hold for `(r, c)` whether it is reached
/// and its distance, or -1 while it is not reached.
pub open spec fn cell_ok(g: Seq<Seq<u8>>, sr: int, sc: int, n: nat, k: nat, seen: bool, dv: int, r: int, c: int) -> bool {
    &&& seen == within(g, sr, sc, k, r, c)
    &&& within(g, sr, sc, k, r, c) ==> dv == dist_value(g, sr, sc, n, r, c)
    &&& !within(g, sr, sc, k, r, c) ==> dv == -1 && dist_from(g, sr, sc, 0, n, r, c) == dist_from(g, sr, sc, k + 1, n, r, c)
}

/// The fewest steps from `(sr, sc)` to each cell, row by row, or -1.
#[verifier::rlimit(100)]
fn distances(g: &Vec<Vec<u8>>, w: usize, sr: usize, sc: usize, n: u64) -> (d: Vec<i64>)
    requires
        rect(grid_of(g@), w as int),
        g@.len() * w < 0x1_0000_0000,
        at(grid_of(g@), sr as int, sc as int) >= 0,
        n < 0x1_0000_0000,
    ensures
        d@.len() == g@.len() * w,
        forall|r: int, c: int|
            0 <= r < g@.len() && 0 <= c < w ==> #[trigger] d@[r * w + c] == dist_value(grid_of(g@), sr as int, sc as int, n as nat, r, c),
{
    let ghost sg = grid_of(g@);
    let h = g.len();
    let total = h * w;
    proof {
        lemma_index(w as int, h as int, sr as int, sc as int);
    }
    let start_i = sr * w + sc;
    let mut cur: Vec<bool> = Vec::new();
    let mut d: Vec<i64> = Vec::new();
    let mut j: usize = 0;
    while j < total
        invariant
            j <= total,
            total == h * w,
            cur@.len() == j,
            d@.len() == j,
            start_i == sr * w + sc,
            forall|i: int| 0 <= i < j ==> #[trigger] cur@[i] == (i == sr * w + sc),
            forall|i: int| 0 <= i < j ==> #[trigger] d@[i] == (if i == sr * w + sc { 0 } else { -1 }),
        decreases total - j,
    {
        let here = j == start_i;
        cur.push(here);
        d.push(if here { 0 } else { -1 });
        j = j + 1;
    }
    proof {
        lemma_index(w as int, h as int, sr as int, sc as int);
        assert forall|r: int, c: int| 0 <= r < h && 0 <= c < w implies cell_ok(sg, sr as int, sc as int, n as nat, 0, #[trigger] cur@[r * w + c], d@[r * w + c] as int, r, c) by {
            lemma_index(w as int, h as int, r, c);
        }
    }
    let mut k: u64 = 0;
    while k < n
        invariant
            sg == grid_of(g@),
            rect(sg, w as int),
            h == g@.len(),
            total == h * w,
            total < 0x1_0000_0000,
            at(sg, sr as int, sc as int) >= 0,
            n < 0x1_0000_0000,
            k <= n,
            cur@.len() == total,
            d@.len() == total,
            forall|r: int, c: int| 0 <= r < h && 0 <= c < w ==> cell_ok(sg, sr as int, sc as int, n as nat, k as nat, #[trigger] cur@[r * w + c], d@[r * w + c] as int, r, c),
        decreases n - k,
    {
        let mut next: Vec<bool> = Vec::new();
        let mut nd: Vec<i64> = Vec::new();
        let mut changed = false;
        let mut i: usize = 0;
        while i < total
            invariant
                sg == grid_of(g@),
                rect(sg, w as int),
                h == g@.len(),
                total == h * w,
                total < 0x1_0000_0000,
                at(sg, sr as int, sc as int) >= 0,
                k < n,
                n < 0x1_0000_0000,
                cur@.len() == total,
                d@.len() == total,
                forall|r: int, c: int| 0 <= r < h && 0 <= c < w ==> cell_ok(sg, sr as int, sc as int, n as nat, k as nat, #[trigger] cur@[r * w + c], d@[r * w + c] as int, r, c),
                i <= total,
                next@.len() == i,
                nd@.len() == i,
                forall|r: int, c: int| 0 <= r < h && 0 <= c < w && r * w + c < i ==> cell_ok(sg, sr as int, sc as int, n as nat, (k + 1) as nat, #[trigger] next@[r * w + c], nd@[r * w + c] as int, r, c),
                !changed ==> forall|r: int, c: int| 0 <= r < h && 0 <= c < w && r * w + c < i ==> #[trigger] within(sg, sr as int, sc as int, (k + 1) as nat, r, c) == within(sg, sr as int, sc as int, k as nat, r, c),
            decreases total - i,
        {
            let r = i / w;
            let c = i % w;
            proof {
                assert(r * w + c == i && 0 <= r < h && 0 <= c < w) by (nonlinear_arith)
                    requires r == i / w, c == i % w, i < total, total == h * w, w > 0;
                lemma_index(w as int, h as int, r as int, c as int);
                assert(r > 0 ==> i >= w) by (nonlinear_arith)
                    requires r * w + c == i, c >= 0, w > 0;
                assert(r + 1 < h ==> i + w < total) by (nonlinear_arith)
                    requires r * w + c == i, c < w, total == h * w;
                assert(c + 1 < w ==> i + 1 < total) by (nonlinear_arith)
                    requires r * w + c == i, r < h, total == h * w;
                assert(cur@[r * w + c] == within(sg, sr as int, sc as int, k as nat, r as int, c as int));
            }
            let here = cur[i];
            let open_here = g[r][c] == g[sr][sc];
            let up = r > 0 && cur[i - w];
            let down = r + 1 < h && cur[i + w];
            let left = c > 0 && cur[i - 1];
            let right = c + 1 < w && cur[i + 1];
            let v = here || (open_here && (up || down || left || right));
            proof {
                let kk = k as nat;
                if r > 0 {
                    lemma_index(w as int, h as int, r - 1, c as int);
                    assert((r - 1) * w + c == i - w) by (nonlinear_arith) requires r * w + c == i;
                    assert(cur@[(r - 1) * w + c] == within(sg, sr as int, sc as int, kk, r - 1, c as int));
                }
                else { lemma_outside(sg, sr as int, sc as int, kk, r - 1, c as int); }
                if r + 1 < h {
                    lemma_index(w as int, h as int, r + 1, c as int);
                    assert((r + 1) * w + c == i + w) by (nonlinear_arith) requires r * w + c == i;
                    assert(cur@[(r + 1) * w + c] == within(sg, sr as int, sc as int, kk, r + 1, c as int));
                }
                else { lemma_outside(sg, sr as int, sc as int, kk, r + 1, c as int); }
                if c > 0 {
                    lemma_index(w as int, h as int, r as int, c - 1);
                    assert(cur@[r * w + (c - 1)] == within(sg, sr as int, sc as int, kk, r as int, c - 1));
                }
                else { lemma_outside(sg, sr as int, sc as int, kk, r as int, c - 1); }
                if c + 1 < w {
                    lemma_index(w as int, h as int, r as int, c + 1);
                    assert(cur@[r * w + (c + 1)] == within(sg, sr as int, sc as int, kk, r as int, c + 1));
                }
                else { lemma_outside(sg, sr as int, sc as int, kk, r as int, c + 1); }
                assert(sg[r as int].len() == w);
                assert(sg[sr as int].len() == w);
                assert(same(sg, sr as int, sc as int, r as int, c as int) == open_here);
                assert(v == within(sg, sr as int, sc as int, (k + 1) as nat, r as int, c as int));
            }
            let dv: i64 = if here { d[i] } else if v { (k + 1) as i64 } else { -1 };
            proof {
                let (ri, ci) = (r as int, c as int);
                let sri = sr as int;
                let sci = sc as int;
                assert(!here && v ==> dist_from(sg, sri, sci, (k + 1) as nat, n as nat, ri, ci) == Some((k + 1) as nat));
                assert(!v ==> dist_from(sg, sri, sci, (k + 1) as nat, n as nat, ri, ci) == dist_from(sg, sri, sci, (k + 2) as nat, n as nat, ri, ci));
                assert(!v ==> !here);
            }
            if v != here {
                changed = true;
            }
            let ghost old_next = next@;
            let ghost old_nd = nd@;
            next.push(v);
            nd.push(dv);
            proof {
                let (ri, ci) = (r as int, c as int);
                assert(within(sg, sr as int, sc as int, (k + 1) as nat, ri, ci) ==> dv == dist_value(sg, sr as int, sc as int, n as nat, ri, ci));
                assert forall|r2: int, c2: int| 0 <= r2 < h && 0 <= c2 < w && r2 * w + c2 < i + 1 implies cell_ok(sg, sr as int, sc as int, n as nat, (k + 1) as nat, #[trigger] next@[r2 * w + c2], nd@[r2 * w + c2] as int, r2, c2) by {
                    lemma_index(w as int, h as int, r2, c2);
                    if r2 * w + c2 < i {
                        assert(next@[r2 * w + c2] == old_next[r2 * w + c2]);
                        assert(nd@[r2 * w + c2] == old_nd[r2 * w + c2]);
                    } else {
                        assert(r2 == ri && c2 == ci);
                    }
                }
                if !changed {
                    assert forall|r2: int, c2: int| 0 <= r2 < h && 0 <= c2 < w && r2 * w + c2 < i + 1 implies #[trigger] within(sg, sr as int, sc as int, (k + 1) as nat, r2, c2) == within(sg, sr as int, sc as int, k as nat, r2, c2) by {
                        lemma_index(w as int, h as int, r2, c2);
                        if r2 * w + c2 >= i {
                            assert(r2 == r && c2 == c);
                        }
                    }
                }
            }
            i = i + 1;
        }
        proof {
            assert forall|r: int, c: int| 0 <= r < h && 0 <= c < w implies cell_ok(sg, sr as int, sc as int, n as nat, (k + 1) as nat, #[trigger] next@[r * w + c], nd@[r * w + c] as int, r, c) by {
                lemma_index(w as int, h as int, r, c);
            }
        }
        if !changed {
            proof {
                assert forall|r: int, c: int| at(sg, r, c) >= 0 implies #[trigger] within(sg, sr as int, sc as int, (k + 1) as nat, r, c) == within(sg, sr as int, sc as int, k as nat, r, c) by {
                    lemma_index(w as int, h as int, r, c);
                }
                assert forall|r: int, c: int| 0 <= r < h && 0 <= c < w && !within(sg, sr as int, sc as int, k as nat, r, c) implies dist_from(sg, sr as int, sc as int, (k + 1) as nat, n as nat, r, c) is None by {
                    lemma_index(w as int, h as int, r, c);
                    assert forall|m: nat| m >= k + 1 implies !#[trigger] within(sg, sr as int, sc as int, m, r, c) by {
                        lemma_fixpoint(sg, sr as int, sc as int, k as nat, m);
                    }
                    lemma_never(sg, sr as int, sc as int, (k + 1) as nat, n as nat, r, c);
                }
                assert forall|r: int, c: int| 0 <= r < h && 0 <= c < w implies #[trigger] d@[r * w + c] == dist_value(sg, sr as int, sc as int, n as nat, r, c) by {
                    lemma_index(w as int, h as int, r, c);
                    assert(cur@[r * w + c] == within(sg, sr as int, sc as int, k as nat, r, c));
                    if !within(sg, sr as int, sc as int, k as nat, r, c) {
                        assert(dist_from(sg, sr as int, sc as int, (k + 1) as nat, n as nat, r, c) is None);
                    }
                }
            }
            return d;
        }
        d = nd;
        cur = next;
        k = k + 1;
    }
    proof {
        assert forall|r: int, c: int| 0 <= r < h && 0 <= c < w implies #[trigger] d@[r * w + c] == dist_value(sg, sr as int, sc as int, n as nat, r, c) by {
            lemma_index(w as int, h as int, r, c);
            assert(cur@[r * w + c] == within(sg, sr as int, sc as int, k as nat, r, c));
            if !within(sg, sr as int, sc as int, k as nat, r, c) {
                assert(dist_from(sg, sr as int, sc as int, (k + 1) as nat, n as nat, r, c) is None);
            }
        }
    }
    d
}

/// `(r2, c2)` is in the region of `(r, c)`: reached through cells of its
/// plant, at most one step per byte of the map.
pub open spec fn connected(s: Seq<u8>, r: int, c: int, r2: int, c2: int) -> bool {
    dist_from(lines_of(s), r, c, 0, s.len(), r2, c2) is Some
}

/// The number of cells in the region of `(r, c)`.
pub open spec fn area(s: Seq<u8>, r: int, c: int) -> int {
    cell_sum(lines_of(s), |r2: int, c2: int| one_if(connected(s, r, c, r2, c2)))
}

/// `(r2, c2)` is off the map or grows another plant than `(r, c)`.
pub open spec fn differs(g: Seq<Seq<u8>>, r: int, c: int, r2: int, c2: int) -> bool {
    at(g, r2, c2) != at(g, r, c)
}

/// The fence sides of cell `(r, c)`.
pub open spec fn sides(g: Seq<Seq<u8>>, r: int, c: int) -> int {
    one_if(differs(g, r, c, r - 1, c)) + one_if(differs(g, r, c, r + 1, c)) + one_if(differs(g, r, c, r, c - 1))
        + one_if(differs(g, r, c, r, c + 1))
}

/// The corner of cell `(r, c)` towards `(dr, dc)` is a corner of its
/// region's fence, outward or inward.
pub open spec fn corner(g: Seq<Seq<u8>>, r: int, c: int, dr: int, dc: int) -> bool {
    let a = differs(g, r, c, r + dr, c);
    let b = differs(g, r, c, r, c + dc);
    (a && b) || (!a && !b && differs(g, r, c, r + dr, c + dc))
}

/// The fence corners at cell `(r, c)`; a region has as many straight sides
/// as corners.
pub open spec fn corners(g: Seq<Seq<u8>>, r: int, c: int) -> int {
    one_if(corner(g, r, c, -1, -1)) + one_if(corner(g, r, c, -1, 1)) + one_if(corner(g, r, c, 1, -1)) + one_if(
        corner(g, r, c, 1, 1),
    )
}

/// What cell `(r, c)` adds to the price: its region's area times its share
/// of the perimeter, or of the sides.
pub open spec fn price_term(s: Seq<u8>, bulk: bool) -> spec_fn(int, int) -> int {
    let g = lines_of(s);
    |r: int, c: int| area(s, r, c) * if bulk { corners(g, r, c) } else { sides(g, r, c) }
}

pub open spec fn price(s: Seq<u8>, bulk: bool) -> int {
    cell_sum(lines_of(s), price_term(s, bulk))
}

/// A rectangular map of fewer than 2^32 cells.
pub open spec fn well_formed(s: Seq<u8>) -> bool {
    let g = lines_of(s);
    &&& g.len() >= 1
    &&& rect(g, g[0].len() as int)
    &&& g.len() * g[0].len() < 0x1_0000_0000
    &&& s.len() < 0x1_0000_0000
}

fn differs_exec(g: &Vec<Vec<u8>>, r: usize, c: usize, r2: i64, c2: i64) -> (b: bool)
    requires
        r < g@.len(),
        c < g@[r as int]@.len(),
    ensures
        b == differs(grid_of(g@), r as int, c as int, r2 as int, c2 as int),
{
    at_signed(g, r2 as i128, c2 as i128) != g[r][c] as i32
}

fn one(b: bool) -> (r: u64)
    ensures
        r == one_if(b),
{
    if b { 1 } else { 0 }
}

fn fence_exec(g: &Vec<Vec<u8>>, r: usize, c: usize, bulk: bool) -> (f: u64)
    requires
        r < g@.len(),
        c < g@[r as int]@.len(),
        r < 0x1_0000_0000,
        c < 0x1_0000_0000,
    ensures
        f == (if bulk { corners(grid_of(g@), r as int, c as int) } else { sides(grid_of(g@), r as int, c as int) }),
        f <= 4,
{
    let ri = r as i64;
    let ci = c as i64;
    let up = differs_exec(g, r, c, ri - 1, ci);
    let down = differs_exec(g, r, c, ri + 1, ci);
    let left = differs_exec(g, r, c, ri, ci - 1);
    let right = differs_exec(g, r, c, ri, ci + 1);
    if !bulk {
        return one(up) + one(down) + one(left) + one(right);
    }
    let ul = differs_exec(g, r, c, ri - 1, ci - 1);
    let ur = differs_exec(g, r, c, ri - 1, ci + 1);
    let dl = differs_exec(g, r, c, ri + 1, ci - 1);
    let dr = differs_exec(g, r, c, ri + 1, ci + 1);
    one((up && left) || (!up && !left && ul)) + one((up && right) || (!up && !right && ur))
        + one((down && left) || (!down && !left && dl)) + one((down && right) || (!down && !right && dr))
}

/// The number of cells in the region of `(r, c)`.
fn area_exec(g: &Vec<Vec<u8>>, w: usize, r: usize, c: usize, n: u64, s: Ghost<Seq<u8>>) -> (a: u64)
    requires
        grid_of(g@) == lines_of(s@),
        well_formed(s@),
        w == lines_of(s@)[0].len(),
        r < g@.len(),
        c < w,
        n == s@.len(),
    ensures
        a == area(s@, r as int, c as int),
        a < 0x1_0000_0000,
{
    let ghost sg = grid_of(g@);
    proof {
        assert(sg[r as int].len() == w);
    }
    let d = distances(g, w, r, c, n);
    let h = g.len();
    let ghost t = |r2: int, c2: int| one_if(connected(s@, r as int, c as int, r2, c2));
    let ghost rows = Seq::new(sg.len(), |i: int| row_sum(sg, t, i));
    proof {
        assert forall|i: int, j: int| #[trigger] t(i, j) >= 0 by {}
        assert forall|i: int| 0 <= i < rows.len() implies #[trigger] rows[i] >= 0 by {
            lemma_cell_sum_bounds(sg, t, i, 0);
        }
    }
    let mut total: u64 = 0;
    let mut r2: usize = 0;
    while r2 < h
        invariant
            sg == grid_of(g@),
            sg == lines_of(s@),
            well_formed(s@),
            h == sg.len(),
            w == sg[0].len(),
            rect(sg, w as int),
            r < h,
            c < w,
            n == s@.len(),
            h * w < 0x1_0000_0000,
            d@.len() == h * w,
            forall|a: int, b: int| 0 <= a < h && 0 <= b < w ==> #[trigger] d@[a * w + b] == dist_value(sg, r as int, c as int, n as nat, a, b),
            t == (|r2: int, c2: int| one_if(connected(s@, r as int, c as int, r2, c2))),
            rows == Seq::new(sg.len(), |i: int| row_sum(sg, t, i)),
            forall|i: int| 0 <= i < rows.len() ==> #[trigger] rows[i] >= 0,
            r2 <= h,
            total == sum(rows.take(r2 as int)),
            total <= r2 * w,
        decreases h - r2,
    {
        let ghost cells = Seq::new(sg[r2 as int].len(), |j: int| t(r2 as int, j));
        let mut row: u64 = 0;
        let mut c2: usize = 0;
        proof {
            assert(sg[r2 as int].len() == w);
            assert(rows.take(r2 + 1).drop_last() == rows.take(r2 as int));
            assert((r2 + 1) * w <= h * w) by (nonlinear_arith)
                requires r2 < h;
            assert((r2 + 1) * w == r2 * w + w) by (nonlinear_arith);
        }
        while c2 < w
            invariant
                sg == grid_of(g@),
                h == sg.len(),
                rect(sg, w as int),
                r2 < h,
                h * w < 0x1_0000_0000,
                d@.len() == h * w,
                forall|a: int, b: int| 0 <= a < h && 0 <= b < w ==> #[trigger] d@[a * w + b] == dist_value(sg, r as int, c as int, n as nat, a, b),
                t == (|r2: int, c2: int| one_if(connected(s@, r as int, c as int, r2, c2))),
                cells == Seq::new(sg[r2 as int].len(), |j: int| t(r2 as int, j)),
                sg[r2 as int].len() == w,
                sg == lines_of(s@),
                n == s@.len(),
                c2 <= w,
                row == sum(cells.take(c2 as int)),
                row <= c2,
            decreases w - c2,
        {
            proof {
                lemma_index(w as int, h as int, r2 as int, c2 as int);
                assert(cells.take(c2 + 1).drop_last() == cells.take(c2 as int));
            }
            let v: u64 = if d[r2 * w + c2] >= 0 { 1 } else { 0 };
            proof {
                lemma_dist_bound(sg, r as int, c as int, 0, n as nat, r2 as int, c2 as int);
                assert(cells[c2 as int] == v);
            }
            row = row + v;
            c2 = c2 + 1;
        }
        proof {
            assert(cells.take(c2 as int) == cells);
        }
        total = total + row;
        r2 = r2 + 1;
    }
    assert(rows.take(r2 as int) == rows);
    proof {
        assert(r2 * w < 0x1_0000_0000);
    }
    total
}

fn price_exec(input: &str, bulk: bool) -> (p: u64)
    requires
        well_formed(input.spec_bytes()),
        price(input.spec_bytes(), bulk) <= u64::MAX,
    ensures
        p == price(input.spec_bytes(), bulk),
{
    let ghost s = input.spec_bytes();
    let bytes = input.as_bytes();
    let g = grid(bytes);
    let ghost sg = grid_of(g@);
    let h = g.len();
    let w = g[0].len();
    let n = bytes.len() as u64;
    let ghost t = price_term(s, bulk);
    let ghost rows = Seq::new(sg.len(), |i: int| row_sum(sg, t, i));
    proof {
        assert forall|i: int, j: int| #[trigger] t(i, j) >= 0 by {
            let ti = |r2: int, c2: int| one_if(connected(s, i, j, r2, c2));
            assert forall|x: int, y: int| #[trigger] ti(x, y) >= 0 by {}
            let rs = Seq::new(sg.len(), |x: int| row_sum(sg, ti, x));
            assert forall|x: int| 0 <= x < rs.len() implies #[trigger] rs[x] >= 0 by {
                lemma_cell_sum_bounds(sg, ti, x, 0);
            }
            lemma_sum_prefix_le(rs, rs.len() as int);
            assert(rs.take(rs.len() as int) == rs);
            assert(area(s, i, j) >= 0);
            let f = if bulk { corners(sg, i, j) } else { sides(sg, i, j) };
            assert(f >= 0);
            assert(area(s, i, j) * f >= 0) by (nonlinear_arith)
                requires area(s, i, j) >= 0, f >= 0;
        }
        assert forall|i: int| 0 <= i < rows.len() implies #[trigger] rows[i] >= 0 by {
            lemma_cell_sum_bounds(sg, t, i, 0);
        }
    }
    let mut total: u64 = 0;
    let mut r: usize = 0;
    while r < h
        invariant
            s == input.spec_bytes(),
            well_formed(s),
            sg == grid_of(g@),
            sg == lines_of(s),
            h == sg.len(),
            w == sg[0].len(),
            n == s.len(),
            rect(sg, w as int),
            h * w < 0x1_0000_0000,
            t == price_term(s, bulk),
            rows == Seq::new(sg.len(), |i: int| row_sum(sg, t, i)),
            forall|i: int| 0 <= i < rows.len() ==> #[trigger] rows[i] >= 0,
            forall|i: int, j: int| #[trigger] t(i, j) >= 0,
            sum(rows) <= u64::MAX,
            r <= h,
            total == sum(rows.take(r as int)),
        decreases h - r,
    {
        let ghost cells = Seq::new(sg[r as int].len(), |j: int| t(r as int, j));
        let mut row: u64 = 0;
        let mut c: usize = 0;
        proof {
            lemma_sum_prefix_le(rows, r + 1);
            assert(rows.take(r + 1).drop_last() == rows.take(r as int));
            assert(sg[r as int].len() == w);
        }
        while c < w
            invariant
                s == input.spec_bytes(),
                well_formed(s),
                sg == grid_of(g@),
                sg == lines_of(s),
                h == sg.len(),
                w == sg[0].len(),
                n == s.len(),
                rect(sg, w as int),
                h * w < 0x1_0000_0000,
                r < h,
                t == price_term(s, bulk),
                cells == Seq::new(sg[r as int].len(), |j: int| t(r as int, j)),
                sg[r as int].len() == w,
                forall|i: int, j: int| #[trigger] t(i, j) >= 0,
                total + sum(cells) <= u64::MAX,
                c <= w,
                row == sum(cells.take(c as int)),
            decreases w - c,
        {
            proof {
                assert forall|j: int| 0 <= j < cells.len() implies #[trigger] cells[j] >= 0 by {}
                lemma_sum_prefix_le(cells, c + 1);
                assert(cells.take(c + 1).drop_last() == cells.take(c as int));
                assert(h < 0x1_0000_0000 && w < 0x1_0000_0000) by (nonlinear_arith)
                    requires h * w < 0x1_0000_0000, r < h, c < w;
            }
            let a = area_exec(&g, w, r, c, n, Ghost(s));
            let f = fence_exec(&g, r, c, bulk);
            let v = a * f;
            proof {
                assert(cells[c as int] == v);
            }
            row = row + v;
            c = c + 1;
        }
        proof {
            assert(cells.take(c as int) == cells);
        }
        total = total + row;
        r = r + 1;
    }
    assert(rows.take(r as int) == rows);
    total
}

/// The price of fencing every region: its area times its perimeter.
pub fn part1(input: &str) -> (p: u64)
    requires
        well_formed(input.spec_bytes()),
        price(input.spec_bytes(), false) <= u64::MAX,
    ensures
        p == price(input.spec_bytes(), false),
{
    price_exec(input, false)
}

/// The price of fencing every region: its area times its number of sides.
pub fn part2(input: &str) -> (p: u64)
    requires
        well_formed(input.spec_bytes()),
        price(input.spec_bytes(), true) <= u64::MAX,
    ensures
        p == price(input.spec_bytes(), true),
{
    price_exec(input, true)
}

} // verus!
