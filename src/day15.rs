//! A robot pushing boxes around a warehouse: where the boxes end up after
//! all its moves, scored by their coordinates.
use vstd::prelude::*;
use vstd::string::StringSliceAdditionalSpecFns;
use crate::day10::at;
use crate::day20::{cell_of, find_cell, one_cell};
use crate::text::{grid_of, lines, lines_of, sum, lemma_sum_prefix_le};

verus! {

/// The byte at row `r`, column `c` of a map stored row by row, `w` wide and
/// `h` high; outside the map reads as a wall.
pub open spec fn cell(g: Seq<u8>, w: int, h: int, r: int, c: int) -> u8 {
    if 0 <= r < h && 0 <= c < w { g[r * w + c] } else { 35u8 }
}

pub open spec fn dir_dr(m: u8) -> int {
    if m == 94u8 { -1 } else if m == 118u8 { 1 } else { 0 }
}

pub open spec fn dir_dc(m: u8) -> int {
    if m == 60u8 { -1 } else if m == 62u8 { 1 } else { 0 }
}

/// The first cell from `(r, c)` on, stepping by `(dr, dc)`, that holds no
/// box, looking at most `fuel` cells ahead.
pub open spec fn stop_from(g: Seq<u8>, w: int, h: int, r: int, c: int, dr: int, dc: int, fuel: nat) -> (int, int)
    decreases fuel,
{
    if fuel == 0 || cell(g, w, h, r, c) != 79u8 {
        (r, c)
    } else {
        stop_from(g, w, h, r + dr, c + dc, dr, dc, (fuel - 1) as nat)
    }
}

/// The warehouse after the robot at `(r, c)` tries move `m`: the row of
/// boxes ahead moves one cell along with the robot when free floor ends it,
/// and nothing moves when a wall does.
pub open spec fn step(g: Seq<u8>, w: int, h: int, r: int, c: int, m: u8) -> (Seq<u8>, int, int) {
    let (dr, dc) = (dir_dr(m), dir_dc(m));
    let (nr, nc) = (r + dr, c + dc);
    let (sr, sc) = stop_from(g, w, h, nr, nc, dr, dc, (w + h + 2) as nat);
    if cell(g, w, h, sr, sc) != 46u8 {
        (g, r, c)
    } else {
        (g.update(sr * w + sc, 79u8).update(nr * w + nc, 64u8).update(r * w + c, 46u8), nr, nc)
    }
}

/// The warehouse after the moves `ms`, in order.
pub open spec fn simulate(g: Seq<u8>, w: int, h: int, r: int, c: int, ms: Seq<u8>) -> (Seq<u8>, int, int)
    decreases ms.len(),
{
    if ms.len() == 0 {
        (g, r, c)
    } else {
        let (g1, r1, c1) = simulate(g, w, h, r, c, ms.drop_last());
        step(g1, w, h, r1, c1, ms.last())
    }
}

proof fn lemma_flat_index(w: int, h: int, r: int, c: int)
    requires
        0 <= r < h,
        0 <= c < w,
    ensures
        0 <= r * w + c < h * w,
        r * w + c < w * h,
        0 <= r * w,
{
    assert(0 <= r * w + c < h * w && 0 <= r * w && h * w == w * h) by (nonlinear_arith)
        requires 0 <= r < h, 0 <= c < w;
}

fn cell_exec(g: &Vec<u8>, w: i64, h: i64, r: i64, c: i64) -> (b: u8)
    requires
        g@.len() == w * h,
        0 < w,
        0 < h,
        w * h < 0x10_0000,
    ensures
        b == cell(g@, w as int, h as int, r as int, c as int),
{
    if 0 <= r && r < h && 0 <= c && c < w {
        proof {
            lemma_flat_index(w as int, h as int, r as int, c as int);
        }
        let i = r * w + c;
        let idx = i as usize;
        assert(idx as int == r * w + c);
        g[idx]
    } else {
        35
    }
}

/// Lets the robot at `(r, c)` try move `m`.
fn step_exec(g: &mut Vec<u8>, w: i64, h: i64, r: &mut i64, c: &mut i64, m: u8)
    requires
        old(g)@.len() == w * h,
        0 < w < 0x10_0000,
        0 < h < 0x10_0000,
        w * h < 0x10_0000,
        0 <= *old(r) < h,
        0 <= *old(c) < w,
    ensures
        final(g)@.len() == w * h,
        0 <= *final(r) < h,
        0 <= *final(c) < w,
        (final(g)@, *final(r) as int, *final(c) as int) == step(old(g)@, w as int, h as int, *old(r) as int, *old(c) as int, m),
{
    let ghost g0 = g@;
    let dr: i64 = if m == 94u8 { -1 } else if m == 118u8 { 1 } else { 0 };
    let dc: i64 = if m == 60u8 { -1 } else if m == 62u8 { 1 } else { 0 };
    let nr = *r + dr;
    let nc = *c + dc;
    let fuel0: i64 = w + h + 2;
    let mut sr = nr;
    let mut sc = nc;
    let mut fuel = fuel0;
    while fuel > 0 && cell_exec(g, w, h, sr, sc) == 79u8
        invariant
            g@ == g0,
            g@.len() == w * h,
            0 < w < 0x10_0000,
            0 < h < 0x10_0000,
            w * h < 0x10_0000,
            -1 <= dr <= 1,
            -1 <= dc <= 1,
            0 <= fuel <= fuel0,
            fuel0 == w + h + 2,
            -0x100_0000 <= sr <= 0x100_0000,
            -0x100_0000 <= sc <= 0x100_0000,
            -0x100_0000 + fuel0 - fuel <= sr,
            sr <= 0x100_0000 - (fuel0 - fuel),
            -0x100_0000 + fuel0 - fuel <= sc,
            sc <= 0x100_0000 - (fuel0 - fuel),
            stop_from(g0, w as int, h as int, nr as int, nc as int, dr as int, dc as int, fuel0 as nat)
                == stop_from(g0, w as int, h as int, sr as int, sc as int, dr as int, dc as int, fuel as nat),
        decreases fuel,
    {
        sr = sr + dr;
        sc = sc + dc;
        fuel = fuel - 1;
    }
    if cell_exec(g, w, h, sr, sc) != 46u8 {
        return;
    }
    proof {
        lemma_flat_index(w as int, h as int, sr as int, sc as int);
        lemma_flat_index(w as int, h as int, *r as int, *c as int);
    }
    if !(0 <= nr && nr < h && 0 <= nc && nc < w) {
        assert(cell(g0, w as int, h as int, nr as int, nc as int) == 35u8);
        return;
    }
    proof {
        lemma_flat_index(w as int, h as int, nr as int, nc as int);
    }
    g.set((sr * w + sc) as usize, 79u8);
    g.set((nr * w + nc) as usize, 64u8);
    g.set((*r * w + *c) as usize, 46u8);
    *r = nr;
    *c = nc;
}

/// The index of the first empty line from `i` on.
pub open spec fn map_end(ls: Seq<Seq<u8>>, i: nat) -> nat
    decreases ls.len() - i,
{
    if i >= ls.len() || ls[i as int].len() == 0 { i } else { map_end(ls, i + 1) }
}

/// The lines `ls`, one after another.
pub open spec fn flat(ls: Seq<Seq<u8>>) -> Seq<u8>
    decreases ls.len(),
{
    if ls.len() == 0 { seq![] } else { flat(ls.drop_last()) + ls.last() }
}

/// The map: the lines before the first empty one.
pub open spec fn map_of(s: Seq<u8>) -> Seq<Seq<u8>> {
    lines_of(s).take(map_end(lines_of(s), 0) as int)
}

/// The moves: every byte of the lines after the empty one. A byte other
/// than `<`, `>`, `^` or `v` moves nothing.
pub open spec fn moves_of(s: Seq<u8>) -> Seq<u8> {
    let ls = lines_of(s);
    let h = map_end(ls, 0);
    if h + 1 <= ls.len() { flat(ls.subrange(h + 1 as int, ls.len() as int)) } else { seq![] }
}

/// The warehouse after all the moves.
pub open spec fn final_state(s: Seq<u8>) -> (Seq<u8>, int, int) {
    let m = map_of(s);
    let start = cell_of(m, 64);
    simulate(flat(m), m[0].len() as int, m.len() as int, start.0, start.1, moves_of(s))
}

/// The sum over the boxes of 100 times their row plus their column.
pub open spec fn gps(g: Seq<u8>, w: int) -> int {
    sum(Seq::new(g.len(), |i: int| if g[i] == 79u8 { 100 * (i / w) + i % w } else { 0 }))
}

/// A rectangular map of fewer than 2^20 cells with one robot.
pub open spec fn well_formed(s: Seq<u8>) -> bool {
    let m = map_of(s);
    &&& m.len() >= 1
    &&& m[0].len() >= 1
    &&& forall|r: int| 0 <= r < m.len() ==> #[trigger] m[r].len() == m[0].len()
    &&& m.len() * m[0].len() < 0x10_0000
    &&& one_cell(m, 64)
}

proof fn lemma_map_end(ls: Seq<Seq<u8>>, i: nat)
    ensures
        i <= ls.len() ==> i <= map_end(ls, i) <= ls.len(),
        forall|k: int| i <= k < map_end(ls, i) ==> (#[trigger] ls[k]).len() > 0,
        map_end(ls, i) < ls.len() ==> ls[map_end(ls, i) as int].len() == 0,
    decreases ls.len() - i,
{
    if i < ls.len() && ls[i as int].len() > 0 {
        lemma_map_end(ls, i + 1);
    }
}

/// The sum over the boxes of 100 times their row plus their column.
fn gps_exec(g: &Vec<u8>, w: usize) -> (r: u64)
    requires
        0 < w,
        g@.len() < 0x10_0000,
    ensures
        r == gps(g@, w as int),
{
    let ghost ts = Seq::new(g@.len(), |i: int| if g@[i] == 79u8 { 100 * (i / w as int) + i % w as int } else { 0 });
    let mut t: u64 = 0;
    let mut i: usize = 0;
    while i < g.len()
        invariant
            0 < w,
            g@.len() < 0x10_0000,
            ts == Seq::new(g@.len(), |i: int| if g@[i] == 79u8 { 100 * (i / w as int) + i % w as int } else { 0 }),
            i <= g@.len(),
            t == sum(ts.take(i as int)),
            t <= i * 0x800_0000,
        decreases g@.len() - i,
    {
        assert(i / w <= i && i % w <= i) by (nonlinear_arith)
            requires w > 0;
        let v: u64 = if g[i] == 79u8 { 100 * ((i / w) as u64) + (i % w) as u64 } else { 0 };
        assert(v <= 0x800_0000);
        assert(ts[i as int] == v);
        assert(ts.take(i + 1).drop_last() == ts.take(i as int));
        t = t + v;
        i = i + 1;
    }
    assert(ts.take(i as int) == ts);
    t
}

/// The sum of the boxes' coordinates once the robot has made all its moves.
pub fn part1(input: &str) -> (r: u64)
    requires
        well_formed(input.spec_bytes()),
    ensures
        r == gps(final_state(input.spec_bytes()).0, map_of(input.spec_bytes())[0].len() as int),
{
    let ghost s = input.spec_bytes();
    let ls = lines(input.as_bytes());
    let ghost sl = lines_of(s);
    let ghost m = map_of(s);
    // The map rows.
    let mut h: usize = 0;
    proof {
        lemma_map_end(sl, 0);
    }
    while h < ls.len() && ls[h].len() > 0
        invariant
            ls@.len() == sl.len(),
            forall|k: int| 0 <= k < ls@.len() ==> #[trigger] ls@[k]@ == sl[k],
            h <= ls@.len(),
            map_end(sl, h as nat) == map_end(sl, 0),
        decreases ls@.len() - h,
    {
        h = h + 1;
    }
    proof {
        assert(h as nat == map_end(sl, 0));
    }
    let mut rows = lines(input.as_bytes());
    rows.truncate(h);
    assert(grid_of(rows@) =~= m);
    let start = find_cell(&rows, 64u8);
    let w = ls[0].len();
    let ghost wi = w as int;
    let ghost hi = h as int;
    // The map, row by row.
    let mut g: Vec<u8> = Vec::new();
    let mut i: usize = 0;
    while i < h
        invariant
            ls@.len() == sl.len(),
            forall|k: int| 0 <= k < ls@.len() ==> #[trigger] ls@[k]@ == sl[k],
            m == sl.take(h as int),
            h <= ls@.len(),
            i <= h,
            g@ == flat(m.take(i as int)),
        decreases h - i,
    {
        let mut j: usize = 0;
        let ghost before = g@;
        while j < ls[i].len()
            invariant
                ls@.len() == sl.len(),
                i < h <= ls@.len(),
                j <= ls@[i as int]@.len(),
                g@ == before + ls@[i as int]@.take(j as int),
            decreases ls@[i as int]@.len() - j,
        {
            g.push(ls[i][j]);
            j = j + 1;
            assert(g@ =~= before + ls@[i as int]@.take(j as int));
        }
        assert(ls@[i as int]@.take(j as int) == ls@[i as int]@);
        assert(m.take(i + 1).drop_last() == m.take(i as int));
        assert(m.take(i + 1).last() == sl[i as int]);
        i = i + 1;
    }
    assert(m.take(h as int) == m);
    assert(g@.len() == hi * wi) by {
        lemma_flat_len(m, wi);
    }
    assert(at(m, start.0 as int, start.1 as int) == 64);
    assert(start.0 < h && start.1 < w);
    assert(hi < 0x10_0000 && wi < 0x10_0000 && wi * hi == hi * wi) by (nonlinear_arith)
        requires hi * wi < 0x10_0000, hi >= 1, wi >= 1;
    let mut r: i64 = start.0 as i64;
    let mut c: i64 = start.1 as i64;
    let ghost g0 = g@;
    let ghost r0 = r as int;
    let ghost c0 = c as int;
    // The moves.
    let mut li: usize = if h < ls.len() { h + 1 } else { ls.len() };
    let ghost mstart = li as int;
    while li < ls.len()
        invariant
            ls@.len() == sl.len(),
            forall|k: int| 0 <= k < ls@.len() ==> #[trigger] ls@[k]@ == sl[k],
            0 <= mstart <= li <= ls@.len(),
            g@.len() == hi * wi,
            g@.len() == wi * hi,
            0 < wi < 0x10_0000,
            0 < hi < 0x10_0000,
            hi * wi < 0x10_0000,
            w == wi,
            h == hi,
            0 <= r < hi,
            0 <= c < wi,
            w == wi,
            h == hi,
            (g@, r as int, c as int) == simulate(g0, wi, hi, r0, c0, flat(sl.subrange(mstart, li as int))),
        decreases ls@.len() - li,
    {
        let ghost base = flat(sl.subrange(mstart, li as int));
        let mut j: usize = 0;
        while j < ls[li].len()
            invariant
                ls@.len() == sl.len(),
                forall|k: int| 0 <= k < ls@.len() ==> #[trigger] ls@[k]@ == sl[k],
                li < ls@.len(),
                j <= ls@[li as int]@.len(),
                g@.len() == hi * wi,
                g@.len() == wi * hi,
                0 < wi < 0x10_0000,
                0 < hi < 0x10_0000,
                hi * wi < 0x10_0000,
                w == wi,
                h == hi,
                0 <= r < hi,
                0 <= c < wi,
                (g@, r as int, c as int) == simulate(g0, wi, hi, r0, c0, base + ls@[li as int]@.take(j as int)),
            decreases ls@[li as int]@.len() - j,
        {
            let mv = ls[li][j];
            step_exec(&mut g, w as i64, h as i64, &mut r, &mut c, mv);
            proof {
                let ms = base + ls@[li as int]@.take(j as int);
                assert((base + ls@[li as int]@.take(j + 1)).drop_last() =~= ms);
                assert((base + ls@[li as int]@.take(j + 1)).last() == mv);
            }
            j = j + 1;
        }
        proof {
            assert(ls@[li as int]@.take(j as int) == ls@[li as int]@);
            assert(sl.subrange(mstart, li + 1).drop_last() =~= sl.subrange(mstart, li as int));
            assert(sl.subrange(mstart, li + 1).last() == sl[li as int]);
        }
        li = li + 1;
    }
    proof {
        assert(sl.subrange(mstart, li as int) == sl.subrange(mstart, sl.len() as int));
        if !(h + 1 <= sl.len()) {
            assert(sl.subrange(mstart, li as int) =~= Seq::<Seq<u8>>::empty());
        }
    }
    gps_exec(&g, w)
}

proof fn lemma_flat_len(m: Seq<Seq<u8>>, w: int)
    requires
        forall|r: int| 0 <= r < m.len() ==> #[trigger] m[r].len() == w,
    ensures
        flat(m).len() == m.len() * w,
    decreases m.len(),
{
    if m.len() > 0 {
        lemma_flat_len(m.drop_last(), w);
        assert(flat(m).len() == flat(m.drop_last()).len() + w);
        assert((m.len() - 1) * w + w == m.len() * w) by (nonlinear_arith);
    }
}

} // verus!
