//! A reindeer maze: the lowest score of a route from the start to the end,
//! where a step forward costs 1 and a quarter turn costs 1000.
use vstd::prelude::*;
use vstd::string::StringSliceAdditionalSpecFns;
use crate::day10::at;
use crate::day20::{cell_of, find_cell, one_cell, rect};
use crate::day4::one_if;
use crate::text::{cell_sum, grid, grid_of, lines_of, row_sum, sum};

verus! {

/// The row and column steps of heading `d`: 0 east, 1 south, 2 west,
/// 3 north.
pub open spec fn dr(d: int) -> int {
    if d == 1 { 1 } else if d == 3 { -1 } else { 0 }
}

pub open spec fn dc(d: int) -> int {
    if d == 0 { 1 } else if d == 2 { -1 } else { 0 }
}

/// `(r, c)` is on the map and not a wall.
pub open spec fn open(g: Seq<Seq<u8>>, r: int, c: int) -> bool {
    at(g, r, c) >= 0 && at(g, r, c) != 35
}

/// The reindeer can stand on `(r, c)` heading `d` with a score of at most
/// `k`, starting on `(sr, sc)` heading east.
pub open spec fn within(g: Seq<Seq<u8>>, sr: int, sc: int, k: nat, r: int, c: int, d: int) -> bool
    decreases k,
{
    if k == 0 {
        r == sr && c == sc && d == 0
    } else {
        within(g, sr, sc, (k - 1) as nat, r, c, d) || (open(g, r, c) && within(
            g,
            sr,
            sc,
            (k - 1) as nat,
            r - dr(d),
            c - dc(d),
            d,
        )) || (k >= 1000 && (within(g, sr, sc, (k - 1000) as nat, r, c, (d + 1) % 4) || within(
            g,
            sr,
            sc,
            (k - 1000) as nat,
            r,
            c,
            (d + 3) % 4,
        )))
    }
}

/// The reindeer can reach `(er, ec)` with a score of at most `k`.
pub open spec fn reaches(g: Seq<Seq<u8>>, sr: int, sc: int, k: nat, er: int, ec: int) -> bool {
    within(g, sr, sc, k, er, ec, 0) || within(g, sr, sc, k, er, ec, 1) || within(g, sr, sc, k, er, ec, 2)
        || within(g, sr, sc, k, er, ec, 3)
}

/// The lowest score from `k` on, at most `n`, that reaches `(er, ec)`.
pub open spec fn score_from(g: Seq<Seq<u8>>, sr: int, sc: int, er: int, ec: int, k: nat, n: nat) -> Option<nat>
    decreases n + 1 - k,
{
    if k > n {
        None
    } else if reaches(g, sr, sc, k, er, ec) {
        Some(k)
    } else {
        score_from(g, sr, sc, er, ec, k + 1, n)
    }
}

/// The highest score searched: a cheapest route passes each cell and
/// heading once, at a cost of at most 1001 each.
pub open spec fn limit(g: Seq<Seq<u8>>) -> nat {
    (1001 * 4 * g.len() * g[0].len()) as nat
}

/// The lowest score of a route from `S` to `E`, if there is one.
pub open spec fn lowest_score(s: Seq<u8>) -> Option<nat> {
    let g = lines_of(s);
    let st = cell_of(g, 83);
    let en = cell_of(g, 69);
    score_from(g, st.0, st.1, en.0, en.1, 0, limit(g))
}

/// A rectangular map of fewer than 2^16 cells, one start, one end.
pub open spec fn well_formed(s: Seq<u8>) -> bool {
    let g = lines_of(s);
    &&& g.len() >= 1
    &&& g[0].len() >= 1
    &&& rect(g, g[0].len() as int)
    &&& g.len() * g[0].len() < 0x1_0000
    &&& one_cell(g, 83)
    &&& one_cell(g, 69)
}

pub open spec fn dec_r(i: int, w: int) -> int {
    i / (4 * w)
}

pub open spec fn dec_c(i: int, w: int) -> int {
    (i / 4) % w
}

pub open spec fn dec_d(i: int) -> int {
    i % 4
}

/// `layer` tells, state by state, whether it is reached with a score of at
/// most `j`; state `(r, c, d)` sits at `(r * w + c) * 4 + d`.
pub open spec fn layer_ok(layer: Seq<bool>, g: Seq<Seq<u8>>, sr: int, sc: int, j: nat, w: int, h: int) -> bool {
    &&& layer.len() == h * w * 4
    &&& forall|i: int| 0 <= i < layer.len() ==> #[trigger] layer[i] == within(g, sr, sc, j, dec_r(i, w), dec_c(i, w), dec_d(i))
}

proof fn lemma_decode(w: int, h: int, r: int, c: int, d: int)
    requires
        0 <= r < h,
        0 <= c < w,
        0 <= d < 4,
    ensures
        0 <= (r * w + c) * 4 + d < h * w * 4,
        dec_r((r * w + c) * 4 + d, w) == r,
        dec_c((r * w + c) * 4 + d, w) == c,
        dec_d((r * w + c) * 4 + d) == d,
{
    let i = (r * w + c) * 4 + d;
    assert(0 <= i < h * w * 4) by (nonlinear_arith)
        requires 0 <= r < h, 0 <= c < w, 0 <= d < 4, i == (r * w + c) * 4 + d;
    vstd::arithmetic::div_mod::lemma_fundamental_div_mod_converse(i, 4, r * w + c, d);
    assert(0 <= r * w + c) by (nonlinear_arith)
        requires 0 <= r, 0 <= c < w;
    vstd::arithmetic::div_mod::lemma_fundamental_div_mod_converse(r * w + c, w, r, c);
    vstd::arithmetic::div_mod::lemma_div_denominator(i, 4, w);
    assert(4 * w == w * 4) by (nonlinear_arith);
}

proof fn lemma_encode(w: int, h: int, i: int)
    requires
        0 < w,
        0 < h,
        0 <= i < h * w * 4,
    ensures
        0 <= dec_r(i, w) < h,
        0 <= dec_c(i, w) < w,
        0 <= dec_d(i) < 4,
        (dec_r(i, w) * w + dec_c(i, w)) * 4 + dec_d(i) == i,
{
    let q = i / 4;
    vstd::arithmetic::div_mod::lemma_fundamental_div_mod(i, 4);
    vstd::arithmetic::div_mod::lemma_fundamental_div_mod(q, w);
    vstd::arithmetic::div_mod::lemma_div_denominator(i, 4, w);
    assert(4 * w == w * 4) by (nonlinear_arith);
    assert(0 <= q < h * w) by (nonlinear_arith)
        requires q == i / 4, 0 <= i < h * w * 4;
    assert(q / w < h) by (nonlinear_arith)
        requires 0 <= q < h * w, w > 0;
    assert(q / w >= 0 && q % w >= 0 && q % w < w) by (nonlinear_arith)
        requires q >= 0, w > 0;
    assert(i / (4 * w) == q / w);
    let a = q / w;
    let b = q % w;
    assert((a * w + b) * 4 + i % 4 == i) by (nonlinear_arith)
        requires q == w * a + b, i == 4 * q + i % 4;
}

proof fn lemma_outside(g: Seq<Seq<u8>>, sr: int, sc: int, k: nat, r: int, c: int, d: int)
    requires
        at(g, sr, sc) >= 0,
        at(g, r, c) < 0,
    ensures
        !within(g, sr, sc, k, r, c, d),
    decreases k,
{
    if k > 0 {
        lemma_outside(g, sr, sc, (k - 1) as nat, r, c, d);
        if k >= 1000 {
            lemma_outside(g, sr, sc, (k - 1000) as nat, r, c, (d + 1) % 4);
            lemma_outside(g, sr, sc, (k - 1000) as nat, r, c, (d + 3) % 4);
        }
    }
}

/// Whether state `(r, c, d)` is reached, by the layer for score `j`.
fn seen(layer: &Vec<bool>, g: Ghost<Seq<Seq<u8>>>, sr: Ghost<int>, sc: Ghost<int>, j: Ghost<nat>, w: i64, h: i64, r: i64, c: i64, d: i64) -> (b: bool)
    requires
        layer_ok(layer@, g@, sr@, sc@, j@, w as int, h as int),
        rect(g@, w as int),
        g@.len() == h,
        0 < w,
        0 < h,
        h * w < 0x1_0000,
        at(g@, sr@, sc@) >= 0,
        0 <= d < 4,
    ensures
        b == within(g@, sr@, sc@, j@, r as int, c as int, d as int),
{
    if r < 0 || r >= h || c < 0 || c >= w {
        proof {
            lemma_outside(g@, sr@, sc@, j@, r as int, c as int, d as int);
        }
        return false;
    }
    proof {
        lemma_decode(w as int, h as int, r as int, c as int, d as int);
        assert((r * w + c) * 4 + d < 0x4_0000) by (nonlinear_arith)
            requires (r * w + c) * 4 + d < h * w * 4, h * w < 0x1_0000;
        assert(0 <= r * w && r * w + c < 0x1_0000) by (nonlinear_arith)
            requires 0 <= r < h, 0 <= c < w, h * w < 0x1_0000;
    }
    layer[((r * w + c) * 4 + d) as usize]
}

/// The layer for score `k + 1`, from the layers for scores up to `k`.
fn next_layer(layers: &Vec<Vec<bool>>, rows: &Vec<Vec<u8>>, g: Ghost<Seq<Seq<u8>>>, sr: Ghost<int>, sc: Ghost<int>, k: usize, w: i64, h: i64) -> (next: Vec<bool>)
    requires
        g@ == grid_of(rows@),
        layers@.len() == k + 1,
        forall|j: int| 0 <= j <= k ==> layer_ok(#[trigger] layers@[j]@, g@, sr@, sc@, j as nat, w as int, h as int),
        rect(g@, w as int),
        g@.len() == h,
        0 < w,
        0 < h,
        h * w < 0x1_0000,
        k < 0x1000_0000,
        at(g@, sr@, sc@) >= 0,
    ensures
        layer_ok(next@, g@, sr@, sc@, (k + 1) as nat, w as int, h as int),
{
    assert(0 < h * w * 4 < 0x4_0000 && w < 0x1_0000 && h < 0x1_0000) by (nonlinear_arith)
        requires 0 < w, 0 < h, h * w < 0x1_0000;
    let total = (h * w * 4) as usize;
    let wu = w as usize;
    let w4 = wu * 4;
    let mut next: Vec<bool> = Vec::new();
    let mut i: usize = 0;
    assert(layer_ok(layers@[k as int]@, g@, sr@, sc@, k as nat, w as int, h as int));
    while i < total
        invariant
            g@ == grid_of(rows@),
            layers@.len() == k + 1,
            forall|j: int| 0 <= j <= k ==> layer_ok(#[trigger] layers@[j]@, g@, sr@, sc@, j as nat, w as int, h as int),
            rect(g@, w as int),
            g@.len() == h,
            0 < w,
            0 < h,
            h * w < 0x1_0000,
            k < 0x1000_0000,
            at(g@, sr@, sc@) >= 0,
            total == h * w * 4,
            wu == w,
            w4 == 4 * w,
            w < 0x1_0000,
            i <= total,
            next@.len() == i,
            forall|m: int| 0 <= m < i ==> #[trigger] next@[m] == within(g@, sr@, sc@, (k + 1) as nat, dec_r(m, w as int), dec_c(m, w as int), dec_d(m)),
        decreases total - i,
    {
        proof {
            lemma_encode(w as int, h as int, i as int);
        }
        let r = (i / w4) as i64;
        let c = ((i / 4) % wu) as i64;
        let d = (i % 4) as i64;
        assert(r == dec_r(i as int, w as int) && c == dec_c(i as int, w as int) && d == dec_d(i as int));
        let here = layers[k][i];
        let open_here = rows[r as usize][c as usize] != 35u8;
        let behind = seen(&layers[k], g, sr, sc, Ghost(k as nat), w, h, r - if d == 1 { 1 } else if d == 3 { -1 } else { 0 }, c - if d == 0 { 1 } else if d == 2 { -1 } else { 0 }, d);
        let mut turned = false;
        if k + 1 >= 1000 {
            let j = k + 1 - 1000;
            assert(layer_ok(layers@[j as int]@, g@, sr@, sc@, j as nat, w as int, h as int));
            turned = seen(&layers[j], g, sr, sc, Ghost(j as nat), w, h, r, c, (d + 1) % 4)
                || seen(&layers[j], g, sr, sc, Ghost(j as nat), w, h, r, c, (d + 3) % 4);
        }
        let v = here || (open_here && behind) || turned;
        proof {
            assert(g@[r as int].len() == w);
            assert(open(g@, r as int, c as int) == open_here);
        }
        next.push(v);
        i = i + 1;
    }
    next
}

/// The layers of the search from `S`, up to the lowest score that reaches
/// `E`, and that score; none when no score up to the limit does.
fn forward(input: &str) -> (res: (Vec<Vec<bool>>, Option<u64>))
    requires
        well_formed(input.spec_bytes()),
    ensures
        ({
            let g = lines_of(input.spec_bytes());
            let st = cell_of(g, 83);
            &&& match lowest_score(input.spec_bytes()) {
                Some(k) => res.1 == Some(k as u64) && res.0@.len() == k + 1 && k < 0x1000_0000,
                None => res.1 is None,
            }
            &&& forall|j: int|
                0 <= j < res.0@.len() ==> layer_ok(#[trigger] res.0@[j]@, g, st.0, st.1, j as nat, g[0].len() as int, g.len() as int)
        }),
{
    let rows = grid(input.as_bytes());
    let ghost g = grid_of(rows@);
    let hu = rows.len();
    let wu = rows[0].len();
    assert(g.len() == hu && g[0].len() == wu);
    assert(hu < 0x1_0000 && wu < 0x1_0000 && hu * wu * 4 < 0x4_0000) by (nonlinear_arith)
        requires hu * wu < 0x1_0000, hu >= 1, wu >= 1;
    let h = hu as i64;
    let w = wu as i64;
    let st = find_cell(&rows, 83u8);
    let en = find_cell(&rows, 69u8);
    let ghost sr = st.0 as int;
    let ghost sc = st.1 as int;
    proof {
        assert(at(g, sr, sc) == 83);
        assert(at(g, en.0 as int, en.1 as int) == 69);
    }
    let total = hu * wu * 4;
    let n = 1001 * (total as u64);
    assert(n == limit(g)) by (nonlinear_arith)
        requires n == 1001 * total, total == hu * wu * 4, g.len() == hu, g[0].len() == wu, limit(g) == (1001 * 4 * g.len() * g[0].len()) as nat;
    assert(st.0 < hu && st.1 < wu);
    assert((st.0 * wu + st.1) * 4 < 0x4_0000 && 0 <= st.0 * wu) by (nonlinear_arith)
        requires st.0 < hu, st.1 < wu, hu * wu * 4 < 0x4_0000;
    let start_i = (st.0 * wu + st.1) * 4;
    let mut first: Vec<bool> = Vec::new();
    let mut i: usize = 0;
    while i < total
        invariant
            0 < w,
            0 < h,
            h * w < 0x1_0000,
            w == wu,
            h == hu,
            hu * wu * 4 < 0x4_0000,
            total == hu * wu * 4,
            start_i == (sr * w + sc) * 4,
            0 <= sr < h,
            0 <= sc < w,
            i <= total,
            first@.len() == i,
            forall|m: int| 0 <= m < i ==> #[trigger] first@[m] == within(g, sr, sc, 0, dec_r(m, w as int), dec_c(m, w as int), dec_d(m)),
        decreases total - i,
    {
        proof {
            lemma_encode(w as int, h as int, i as int);
            lemma_decode(w as int, h as int, sr, sc, 0);
        }
        first.push(i == start_i);
        proof {
            let m = i as int;
            if dec_r(m, w as int) == sr && dec_c(m, w as int) == sc && dec_d(m) == 0 {
                assert(m == (sr * w + sc) * 4);
            }
            if m == start_i {
                assert(m == (sr * w + sc) * 4 + 0);
            }
        }
        i = i + 1;
    }
    let mut layers: Vec<Vec<bool>> = Vec::new();
    layers.push(first);
    let mut k: usize = 0;
    loop
        invariant
            g == grid_of(rows@),
            g == lines_of(input.spec_bytes()),
            well_formed(input.spec_bytes()),
            rect(g, w as int),
            g.len() == h,
            0 < w,
            0 < h,
            h * w < 0x1_0000,
            n == limit(g),
            n < 0x1000_0000,
            at(g, sr, sc) >= 0,
            (sr, sc) == cell_of(g, 83),
            (en.0 as int, en.1 as int) == cell_of(g, 69),
            at(g, en.0 as int, en.1 as int) == 69,
            k <= n,
            layers@.len() == k + 1,
            forall|j: int| 0 <= j <= k ==> layer_ok(#[trigger] layers@[j]@, g, sr, sc, j as nat, w as int, h as int),
            score_from(g, sr, sc, en.0 as int, en.1 as int, 0, n as nat) == score_from(g, sr, sc, en.0 as int, en.1 as int, k as nat, n as nat),
        decreases n - k,
    {
        assert(layer_ok(layers@[k as int]@, g, sr, sc, k as nat, w as int, h as int));
        let er = en.0 as i64;
        let ec = en.1 as i64;
        let hit = seen(&layers[k], Ghost(g), Ghost(sr), Ghost(sc), Ghost(k as nat), w, h, er, ec, 0)
            || seen(&layers[k], Ghost(g), Ghost(sr), Ghost(sc), Ghost(k as nat), w, h, er, ec, 1)
            || seen(&layers[k], Ghost(g), Ghost(sr), Ghost(sc), Ghost(k as nat), w, h, er, ec, 2)
            || seen(&layers[k], Ghost(g), Ghost(sr), Ghost(sc), Ghost(k as nat), w, h, er, ec, 3);
        if hit {
            return (layers, Some(k as u64));
        }
        if k as u64 == n {
            proof {
                assert(!reaches(g, sr, sc, k as nat, en.0 as int, en.1 as int));
                assert(score_from(g, sr, sc, en.0 as int, en.1 as int, (k + 1) as nat, n as nat) is None);
                assert(score_from(g, sr, sc, en.0 as int, en.1 as int, k as nat, n as nat) is None);
                assert(lowest_score(input.spec_bytes()) == score_from(g, sr, sc, en.0 as int, en.1 as int, 0, n as nat));
            }
            return (layers, None);
        }
        let next = next_layer(&layers, &rows, Ghost(g), Ghost(sr), Ghost(sc), k, w, h);
        let ghost before = layers@;
        layers.push(next);
        proof {
            assert forall|j: int| 0 <= j <= k + 1 implies layer_ok(#[trigger] layers@[j]@, g, sr, sc, j as nat, w as int, h as int) by {
                if j <= k {
                    assert(layers@[j] == before[j]);
                    assert(layer_ok(before[j]@, g, sr, sc, j as nat, w as int, h as int));
                }
            }
        }
        k = k + 1;
    }
}

/// The lowest score of a route from `S` to `E`; none when there is none.
pub fn part1(input: &str) -> (r: Option<u64>)
    requires
        well_formed(input.spec_bytes()),
    ensures
        match lowest_score(input.spec_bytes()) {
            Some(k) => r == Some(k as u64),
            None => r is None,
        },
{
    forward(input).1
}

/// From `(r, c)` heading `d`, the reindeer can reach `(er, ec)` with a
/// score of at most `k`.
pub open spec fn leads(g: Seq<Seq<u8>>, er: int, ec: int, k: nat, r: int, c: int, d: int) -> bool
    decreases k,
{
    if k == 0 {
        r == er && c == ec
    } else {
        leads(g, er, ec, (k - 1) as nat, r, c, d) || (open(g, r, c) && open(g, r + dr(d), c + dc(d)) && leads(
            g,
            er,
            ec,
            (k - 1) as nat,
            r + dr(d),
            c + dc(d),
            d,
        )) || (k >= 1000 && (leads(g, er, ec, (k - 1000) as nat, r, c, (d + 1) % 4) || leads(
            g,
            er,
            ec,
            (k - 1000) as nat,
            r,
            c,
            (d + 3) % 4,
        )))
    }
}

/// `layer` tells, state by state, whether it reaches `(er, ec)` with a score
/// of at most `j`.
pub open spec fn rev_layer_ok(layer: Seq<bool>, g: Seq<Seq<u8>>, er: int, ec: int, j: nat, w: int, h: int) -> bool {
    &&& layer.len() == h * w * 4
    &&& forall|i: int| 0 <= i < layer.len() ==> #[trigger] layer[i] == leads(g, er, ec, j, dec_r(i, w), dec_c(i, w), dec_d(i))
}

proof fn lemma_outside_rev(g: Seq<Seq<u8>>, er: int, ec: int, k: nat, r: int, c: int, d: int)
    requires
        at(g, er, ec) >= 0,
        at(g, r, c) < 0,
    ensures
        !leads(g, er, ec, k, r, c, d),
    decreases k,
{
    if k > 0 {
        lemma_outside_rev(g, er, ec, (k - 1) as nat, r, c, d);
        if k >= 1000 {
            lemma_outside_rev(g, er, ec, (k - 1000) as nat, r, c, (d + 1) % 4);
            lemma_outside_rev(g, er, ec, (k - 1000) as nat, r, c, (d + 3) % 4);
        }
    }
}

fn seen_rev(layer: &Vec<bool>, g: Ghost<Seq<Seq<u8>>>, er: Ghost<int>, ec: Ghost<int>, j: Ghost<nat>, w: i64, h: i64, r: i64, c: i64, d: i64) -> (b: bool)
    requires
        rev_layer_ok(layer@, g@, er@, ec@, j@, w as int, h as int),
        rect(g@, w as int),
        g@.len() == h,
        0 < w,
        0 < h,
        h * w < 0x1_0000,
        at(g@, er@, ec@) >= 0,
        0 <= d < 4,
    ensures
        b == leads(g@, er@, ec@, j@, r as int, c as int, d as int),
{
    if r < 0 || r >= h || c < 0 || c >= w {
        proof {
            lemma_outside_rev(g@, er@, ec@, j@, r as int, c as int, d as int);
        }
        return false;
    }
    proof {
        lemma_decode(w as int, h as int, r as int, c as int, d as int);
        assert((r * w + c) * 4 + d < 0x4_0000) by (nonlinear_arith)
            requires (r * w + c) * 4 + d < h * w * 4, h * w < 0x1_0000;
        assert(0 <= r * w && r * w + c < 0x1_0000) by (nonlinear_arith)
            requires 0 <= r < h, 0 <= c < w, h * w < 0x1_0000;
    }
    layer[((r * w + c) * 4 + d) as usize]
}

fn open_exec(rows: &Vec<Vec<u8>>, g: Ghost<Seq<Seq<u8>>>, w: i64, h: i64, r: i64, c: i64) -> (b: bool)
    requires
        g@ == grid_of(rows@),
        rect(g@, w as int),
        g@.len() == h,
        0 < w,
        0 < h,
        h * w < 0x1_0000,
    ensures
        b == open(g@, r as int, c as int),
{
    if r < 0 || r >= h || c < 0 || c >= w {
        return false;
    }
    assert(h < 0x1_0000 && w < 0x1_0000) by (nonlinear_arith)
        requires 0 < w, 0 < h, h * w < 0x1_0000;
    assert(g@[r as int].len() == w);
    rows[r as usize][c as usize] != 35u8
}

/// The layer for score `k + 1` of the search towards the end, from the
/// layers for scores up to `k`.
fn next_rev_layer(layers: &Vec<Vec<bool>>, rows: &Vec<Vec<u8>>, g: Ghost<Seq<Seq<u8>>>, er: Ghost<int>, ec: Ghost<int>, k: usize, w: i64, h: i64) -> (next: Vec<bool>)
    requires
        g@ == grid_of(rows@),
        layers@.len() == k + 1,
        forall|j: int| 0 <= j <= k ==> rev_layer_ok(#[trigger] layers@[j]@, g@, er@, ec@, j as nat, w as int, h as int),
        rect(g@, w as int),
        g@.len() == h,
        0 < w,
        0 < h,
        h * w < 0x1_0000,
        k < 0x1000_0000,
        at(g@, er@, ec@) >= 0,
    ensures
        rev_layer_ok(next@, g@, er@, ec@, (k + 1) as nat, w as int, h as int),
{
    assert(0 < h * w * 4 < 0x4_0000 && w < 0x1_0000 && h < 0x1_0000) by (nonlinear_arith)
        requires 0 < w, 0 < h, h * w < 0x1_0000;
    let total = (h * w * 4) as usize;
    let wu = w as usize;
    let w4 = wu * 4;
    let mut next: Vec<bool> = Vec::new();
    let mut i: usize = 0;
    assert(rev_layer_ok(layers@[k as int]@, g@, er@, ec@, k as nat, w as int, h as int));
    while i < total
        invariant
            g@ == grid_of(rows@),
            layers@.len() == k + 1,
            forall|j: int| 0 <= j <= k ==> rev_layer_ok(#[trigger] layers@[j]@, g@, er@, ec@, j as nat, w as int, h as int),
            rect(g@, w as int),
            g@.len() == h,
            0 < w,
            0 < h,
            h * w < 0x1_0000,
            k < 0x1000_0000,
            at(g@, er@, ec@) >= 0,
            total == h * w * 4,
            wu == w,
            w4 == 4 * w,
            w < 0x1_0000,
            i <= total,
            next@.len() == i,
            forall|m: int| 0 <= m < i ==> #[trigger] next@[m] == leads(g@, er@, ec@, (k + 1) as nat, dec_r(m, w as int), dec_c(m, w as int), dec_d(m)),
        decreases total - i,
    {
        proof {
            lemma_encode(w as int, h as int, i as int);
        }
        let r = (i / w4) as i64;
        let c = ((i / 4) % wu) as i64;
        let d = (i % 4) as i64;
        assert(r == dec_r(i as int, w as int) && c == dec_c(i as int, w as int) && d == dec_d(i as int));
        let here = layers[k][i];
        let nr = r + if d == 1 { 1 } else if d == 3 { -1 } else { 0 };
        let nc = c + if d == 0 { 1 } else if d == 2 { -1 } else { 0 };
        let step_ok = open_exec(rows, g, w, h, r, c) && open_exec(rows, g, w, h, nr, nc);
        let ahead = seen_rev(&layers[k], g, er, ec, Ghost(k as nat), w, h, nr, nc, d);
        let mut turned = false;
        if k + 1 >= 1000 {
            let j = k + 1 - 1000;
            assert(rev_layer_ok(layers@[j as int]@, g@, er@, ec@, j as nat, w as int, h as int));
            turned = seen_rev(&layers[j], g, er, ec, Ghost(j as nat), w, h, r, c, (d + 1) % 4)
                || seen_rev(&layers[j], g, er, ec, Ghost(j as nat), w, h, r, c, (d + 3) % 4);
        }
        let v = here || (step_ok && ahead) || turned;
        next.push(v);
        i = i + 1;
    }
    next
}

/// `(r, c)` lies on a route of score `best`: heading some way, the reindeer
/// stands there with a score of at most `k1` and can go on to the end with
/// at most `best - k1` more.
pub open spec fn on_best(g: Seq<Seq<u8>>, sr: int, sc: int, er: int, ec: int, best: nat, r: int, c: int) -> bool {
    exists|d: int, k1: nat|
        0 <= d < 4 && k1 <= best && #[trigger] within(g, sr, sc, k1, r, c, d) && leads(g, er, ec, (best - k1) as nat, r, c, d)
}

pub open spec fn tile_term(g: Seq<Seq<u8>>, best: nat) -> spec_fn(int, int) -> int {
    let st = cell_of(g, 83);
    let en = cell_of(g, 69);
    |r: int, c: int| one_if(on_best(g, st.0, st.1, en.0, en.1, best, r, c))
}

/// The number of tiles on some route of the lowest score; none when no route
/// reaches the end.
pub open spec fn best_tiles(s: Seq<u8>) -> Option<int> {
    let g = lines_of(s);
    match lowest_score(s) {
        Some(b) => Some(cell_sum(g, tile_term(g, b))),
        None => None,
    }
}

fn tile_on(layers: &Vec<Vec<bool>>, rev: &Vec<Vec<bool>>, g: Ghost<Seq<Seq<u8>>>, sr: Ghost<int>, sc: Ghost<int>, er: Ghost<int>, ec: Ghost<int>, best: usize, w: i64, h: i64, r: i64, c: i64) -> (b: bool)
    requires
        best < 0x1000_0000,
        layers@.len() == best + 1,
        rev@.len() == best + 1,
        forall|j: int| 0 <= j <= best ==> layer_ok(#[trigger] layers@[j]@, g@, sr@, sc@, j as nat, w as int, h as int),
        forall|j: int| 0 <= j <= best ==> rev_layer_ok(#[trigger] rev@[j]@, g@, er@, ec@, j as nat, w as int, h as int),
        rect(g@, w as int),
        g@.len() == h,
        0 < w,
        0 < h,
        h * w < 0x1_0000,
        at(g@, sr@, sc@) >= 0,
        at(g@, er@, ec@) >= 0,
    ensures
        b == on_best(g@, sr@, sc@, er@, ec@, best as nat, r as int, c as int),
{
    let mut d: i64 = 0;
    while d < 4
        invariant
            best < 0x1000_0000,
            layers@.len() == best + 1,
            rev@.len() == best + 1,
            forall|j: int| 0 <= j <= best ==> layer_ok(#[trigger] layers@[j]@, g@, sr@, sc@, j as nat, w as int, h as int),
            forall|j: int| 0 <= j <= best ==> rev_layer_ok(#[trigger] rev@[j]@, g@, er@, ec@, j as nat, w as int, h as int),
            rect(g@, w as int),
            g@.len() == h,
            0 < w,
            0 < h,
            h * w < 0x1_0000,
            at(g@, sr@, sc@) >= 0,
            at(g@, er@, ec@) >= 0,
            0 <= d <= 4,
            forall|d2: int, k1: nat| 0 <= d2 < d && k1 <= best ==> !(#[trigger] within(g@, sr@, sc@, k1, r as int, c as int, d2)
                && leads(g@, er@, ec@, (best - k1) as nat, r as int, c as int, d2)),
        decreases 4 - d,
    {
        let mut k1: usize = 0;
        while k1 <= best
            invariant
                best < 0x1000_0000,
                layers@.len() == best + 1,
                rev@.len() == best + 1,
                forall|j: int| 0 <= j <= best ==> layer_ok(#[trigger] layers@[j]@, g@, sr@, sc@, j as nat, w as int, h as int),
                forall|j: int| 0 <= j <= best ==> rev_layer_ok(#[trigger] rev@[j]@, g@, er@, ec@, j as nat, w as int, h as int),
                rect(g@, w as int),
                g@.len() == h,
                0 < w,
                0 < h,
                h * w < 0x1_0000,
                at(g@, sr@, sc@) >= 0,
                at(g@, er@, ec@) >= 0,
                0 <= d < 4,
                k1 <= best + 1,
                forall|d2: int, k: nat| 0 <= d2 < d && k <= best ==> !(#[trigger] within(g@, sr@, sc@, k, r as int, c as int, d2)
                    && leads(g@, er@, ec@, (best - k) as nat, r as int, c as int, d2)),
                forall|k: nat| k < k1 ==> !(#[trigger] within(g@, sr@, sc@, k, r as int, c as int, d as int)
                    && leads(g@, er@, ec@, (best - k) as nat, r as int, c as int, d as int)),
            decreases best + 1 - k1,
        {
            assert(layer_ok(layers@[k1 as int]@, g@, sr@, sc@, k1 as nat, w as int, h as int));
            assert(rev_layer_ok(rev@[(best - k1) as int]@, g@, er@, ec@, (best - k1) as nat, w as int, h as int));
            let a = seen(&layers[k1], g, sr, sc, Ghost(k1 as nat), w, h, r, c, d);
            let b = seen_rev(&rev[best - k1], g, er, ec, Ghost((best - k1) as nat), w, h, r, c, d);
            if a && b {
                assert(within(g@, sr@, sc@, k1 as nat, r as int, c as int, d as int));
                return true;
            }
            k1 = k1 + 1;
        }
        d = d + 1;
    }
    false
}

/// The number of tiles on some route of the lowest score from `S` to `E`;
/// none when no route reaches the end.
pub fn part2(input: &str) -> (r: Option<u64>)
    requires
        well_formed(input.spec_bytes()),
    ensures
        match best_tiles(input.spec_bytes()) {
            Some(t) => r == Some(t as u64),
            None => r is None,
        },
{
    let (layers, found) = forward(input);
    let best = match found {
        Some(b) => b as usize,
        None => {
            return None;
        },
    };
    let rows = grid(input.as_bytes());
    let ghost g = grid_of(rows@);
    let hu = rows.len();
    let wu = rows[0].len();
    assert(g.len() == hu && g[0].len() == wu);
    assert(hu < 0x1_0000 && wu < 0x1_0000 && hu * wu * 4 < 0x4_0000) by (nonlinear_arith)
        requires hu * wu < 0x1_0000, hu >= 1, wu >= 1;
    let h = hu as i64;
    let w = wu as i64;
    let st = find_cell(&rows, 83u8);
    let en = find_cell(&rows, 69u8);
    let ghost sr = st.0 as int;
    let ghost sc = st.1 as int;
    let ghost er = en.0 as int;
    let ghost ec = en.1 as int;
    proof {
        assert(at(g, sr, sc) == 83);
        assert(at(g, er, ec) == 69);
    }
    let total = hu * wu * 4;
    // The layer for score 0 of the search towards the end.
    let mut first: Vec<bool> = Vec::new();
    let mut i: usize = 0;
    while i < total
        invariant
            0 < w,
            0 < h,
            h * w < 0x1_0000,
            w == wu,
            h == hu,
            hu * wu * 4 < 0x4_0000,
            wu < 0x1_0000,
            total == hu * wu * 4,
            0 <= er < h,
            0 <= ec < w,
            er == en.0,
            ec == en.1,
            i <= total,
            first@.len() == i,
            forall|m: int| 0 <= m < i ==> #[trigger] first@[m] == leads(g, er, ec, 0, dec_r(m, w as int), dec_c(m, w as int), dec_d(m)),
        decreases total - i,
    {
        proof {
            lemma_encode(w as int, h as int, i as int);
        }
        let w4 = wu * 4;
        assert(w4 == 4 * w);
        let rr = i / w4;
        let cc = (i / 4) % wu;
        first.push(rr == en.0 && cc == en.1);
        i = i + 1;
    }
    let mut rev: Vec<Vec<bool>> = Vec::new();
    rev.push(first);
    let mut k: usize = 0;
    while k < best
        invariant
            g == grid_of(rows@),
            rect(g, w as int),
            g.len() == h,
            0 < w,
            0 < h,
            h * w < 0x1_0000,
            best < 0x1000_0000,
            at(g, er, ec) >= 0,
            k <= best,
            rev@.len() == k + 1,
            forall|j: int| 0 <= j <= k ==> rev_layer_ok(#[trigger] rev@[j]@, g, er, ec, j as nat, w as int, h as int),
        decreases best - k,
    {
        let next = next_rev_layer(&rev, &rows, Ghost(g), Ghost(er), Ghost(ec), k, w, h);
        let ghost before = rev@;
        rev.push(next);
        proof {
            assert forall|j: int| 0 <= j <= k + 1 implies rev_layer_ok(#[trigger] rev@[j]@, g, er, ec, j as nat, w as int, h as int) by {
                if j <= k {
                    assert(rev@[j] == before[j]);
                    assert(rev_layer_ok(before[j]@, g, er, ec, j as nat, w as int, h as int));
                }
            }
        }
        k = k + 1;
    }
    // Count the tiles, row by row.
    let ghost t = tile_term(g, best as nat);
    let ghost rowsums = Seq::new(g.len(), |x: int| row_sum(g, t, x));
    let mut count: u64 = 0;
    let mut r: usize = 0;
    while r < hu
        invariant
            g == grid_of(rows@),
            g == lines_of(input.spec_bytes()),
            rect(g, w as int),
            g.len() == h,
            w == wu,
            h == hu,
            0 < w,
            0 < h,
            h * w < 0x1_0000,
            best < 0x1000_0000,
            (sr, sc) == cell_of(g, 83),
            (er, ec) == cell_of(g, 69),
            at(g, sr, sc) >= 0,
            at(g, er, ec) >= 0,
            layers@.len() == best + 1,
            rev@.len() == best + 1,
            forall|j: int| 0 <= j <= best ==> layer_ok(#[trigger] layers@[j]@, g, sr, sc, j as nat, w as int, h as int),
            forall|j: int| 0 <= j <= best ==> rev_layer_ok(#[trigger] rev@[j]@, g, er, ec, j as nat, w as int, h as int),
            t == tile_term(g, best as nat),
            rowsums == Seq::new(g.len(), |x: int| row_sum(g, t, x)),
            r <= hu,
            count == sum(rowsums.take(r as int)),
            count <= r * wu,
        decreases hu - r,
    {
        let ghost cells = Seq::new(g[r as int].len(), |j: int| t(r as int, j));
        let mut row: u64 = 0;
        let mut c: usize = 0;
        while c < wu
            invariant
                g == grid_of(rows@),
                rect(g, w as int),
                g.len() == h,
                w == wu,
                h == hu,
                0 < w,
                0 < h,
                h * w < 0x1_0000,
                best < 0x1000_0000,
                (sr, sc) == cell_of(g, 83),
                (er, ec) == cell_of(g, 69),
                at(g, sr, sc) >= 0,
                at(g, er, ec) >= 0,
                layers@.len() == best + 1,
                rev@.len() == best + 1,
                forall|j: int| 0 <= j <= best ==> layer_ok(#[trigger] layers@[j]@, g, sr, sc, j as nat, w as int, h as int),
                forall|j: int| 0 <= j <= best ==> rev_layer_ok(#[trigger] rev@[j]@, g, er, ec, j as nat, w as int, h as int),
                t == tile_term(g, best as nat),
                r < hu,
                cells == Seq::new(g[r as int].len(), |j: int| t(r as int, j)),
                g[r as int].len() == wu,
                c <= wu,
                row == sum(cells.take(c as int)),
                row <= c,
            decreases wu - c,
        {
            let on = tile_on(&layers, &rev, Ghost(g), Ghost(sr), Ghost(sc), Ghost(er), Ghost(ec), best, w, h, r as i64, c as i64);
            let v: u64 = if on { 1 } else { 0 };
            proof {
                assert(cells[c as int] == v);
                assert(cells.take(c + 1).drop_last() == cells.take(c as int));
            }
            row = row + v;
            c = c + 1;
        }
        proof {
            assert(cells.take(c as int) == cells);
            assert(rowsums[r as int] == sum(cells));
            assert(rowsums.take(r + 1).drop_last() == rowsums.take(r as int));
            assert((r + 1) * wu == r * wu + wu) by (nonlinear_arith);
            assert(r * wu + wu <= hu * wu) by (nonlinear_arith)
                requires r < hu;
        }
        count = count + row;
        r = r + 1;
    }
    proof {
        assert(rowsums.take(r as int) == rowsums);
        assert(lowest_score(input.spec_bytes()) == Some(best as nat));
    }
    Some(count)
}

} // verus!
