//! Robots that walk a wrapping grid at fixed velocities: how they fill the
//! four quadrants after 100 seconds.
use vstd::prelude::*;
use vstd::arithmetic::div_mod::lemma_mod_multiples_vanish;
use vstd::string::StringSliceAdditionalSpecFns;
use crate::day4::one_if;
use crate::text::{ints, ints_of, lemma_sum_prefix_le, lines, lines_of, small_ints, sum};

verus! {

/// Where a robot that starts at `p` with velocity `v` stands after `t`
/// seconds on a wrapping axis of length `n`.
pub open spec fn wrap(p: int, v: int, t: int, n: int) -> int {
    (p + t * v) % n
}

/// Whether the robot of line `l` stands in quadrant `q` (0 to 3: top left,
/// top right, bottom left, bottom right) after 100 seconds; the middle row
/// and column belong to no quadrant.
pub open spec fn in_quadrant(l: Seq<u8>, w: int, h: int, q: int) -> bool {
    let r = ints_of(l);
    let x = wrap(r[0], r[2], 100, w);
    let y = wrap(r[1], r[3], 100, h);
    let left = x < w / 2;
    let right = x > w / 2;
    let top = y < h / 2;
    let bottom = y > h / 2;
    if q == 0 { left && top } else if q == 1 { right && top } else if q == 2 { left && bottom } else { right && bottom }
}

/// The number of robots in quadrant `q` after 100 seconds.
pub open spec fn quadrant_count(s: Seq<u8>, w: int, h: int, q: int) -> int {
    sum(lines_of(s).map_values(|l: Seq<u8>| one_if(in_quadrant(l, w, h, q))))
}

pub open spec fn safety(s: Seq<u8>, w: int, h: int) -> int {
    quadrant_count(s, w, h, 0) * quadrant_count(s, w, h, 1) * quadrant_count(s, w, h, 2) * quadrant_count(
        s,
        w,
        h,
        3,
    )
}

/// Each line gives a robot: position and velocity, numbers below 2^40.
pub open spec fn well_formed(s: Seq<u8>) -> bool {
    forall|i: int|
        0 <= i < lines_of(s).len() ==> small_ints(#[trigger] lines_of(s)[i]) && ints_of(lines_of(s)[i]).len() >= 4
}

/// `x` modulo `n`, for `x` of either sign.
fn wrap_exec(x: i64, n: i64) -> (r: i64)
    requires
        -0x2000_0000_0000_0000 < x < 0x2000_0000_0000_0000,
        0 < n < 0x10_0000,
    ensures
        r == x % n,
{
    let k: i128 = 0x4000_0000_0000_0000;
    let y = x as i128 + (n as i128) * k;
    assert(y >= 0) by (nonlinear_arith)
        requires y == x + n * k, n >= 1, k == 0x4000_0000_0000_0000, x > -0x2000_0000_0000_0000;
    assert(y < 0x1_0000_0000_0000_0000_0000_0000) by (nonlinear_arith)
        requires y == x + n * k, n < 0x10_0000, k == 0x4000_0000_0000_0000, x < 0x2000_0000_0000_0000;
    let r = ((y as u128) % (n as u128)) as i64;
    proof {
        lemma_mod_multiples_vanish(k as int, x as int, n as int);
        assert(n * k + x == y);
    }
    r
}

/// The quadrant counts after 100 seconds on a grid `w` wide and `h` high,
/// multiplied together.
pub fn quad_prod_vec(input: &str, w: i32, h: i32) -> (r: u64)
    requires
        well_formed(input.spec_bytes()),
        0 < w < 0x10_0000,
        0 < h < 0x10_0000,
        safety(input.spec_bytes(), w as int, h as int) <= u64::MAX,
    ensures
        r == safety(input.spec_bytes(), w as int, h as int),
{
    let ls = lines(input.as_bytes());
    let ghost sl = lines_of(input.spec_bytes());
    let mut counts: Vec<u64> = vec![0u64, 0u64, 0u64, 0u64];
    let ghost wi = w as int;
    let ghost hi = h as int;
    let mut i: usize = 0;
    while i < ls.len()
        invariant
            sl == lines_of(input.spec_bytes()),
            wi == w as int,
            hi == h as int,
            well_formed(input.spec_bytes()),
            0 < w < 0x10_0000,
            0 < h < 0x10_0000,
            ls@.len() == sl.len(),
            forall|k: int| 0 <= k < ls@.len() ==> #[trigger] ls@[k]@ == sl[k],
            i <= ls@.len(),
            counts@.len() == 4,
            forall|q: int|
                0 <= q < 4 ==> #[trigger] counts@[q] == sum(
                    sl.take(i as int).map_values(|l: Seq<u8>| one_if(in_quadrant(l, wi, hi, q))),
                ),
            forall|q: int| 0 <= q < 4 ==> #[trigger] counts@[q] <= i,
        decreases ls@.len() - i,
    {
        assert(small_ints(sl[i as int]) && ints_of(sl[i as int]).len() >= 4);
        let r = ints(ls[i].as_slice());
        let x = wrap_exec(r[0] + 100 * r[2], w as i64);
        let y = wrap_exec(r[1] + 100 * r[3], h as i64);
        let hw = (w / 2) as i64;
        let hh = (h / 2) as i64;
        let q: usize = if x < hw && y < hh {
            0
        } else if x > hw && y < hh {
            1
        } else if x < hw && y > hh {
            2
        } else if x > hw && y > hh {
            3
        } else {
            4
        };
        let ghost before = counts@;
        if q < 4 {
            let c = counts[q];
            counts.set(q, c + 1);
        }
        proof {
            assert forall|qq: int| 0 <= qq < 4 implies #[trigger] counts@[qq] == sum(
                sl.take(i + 1).map_values(|l: Seq<u8>| one_if(in_quadrant(l, wi, hi, qq))),
            ) by {
                let f = |l: Seq<u8>| one_if(in_quadrant(l, wi, hi, qq));
                assert(sl.take(i + 1).map_values(f).drop_last() =~= sl.take(i as int).map_values(f));
                assert(sl.take(i + 1).map_values(f).last() == one_if(in_quadrant(sl[i as int], wi, hi, qq)));
                assert(ints_of(sl[i as int])[0] == r@[0]);
            }
        }
        i = i + 1;
    }
    proof {
        assert(sl.take(i as int) == sl);
    }
    let ghost c0 = counts@[0] as int;
    let ghost c1 = counts@[1] as int;
    let ghost c2 = counts@[2] as int;
    let ghost c3 = counts@[3] as int;
    assert(c0 * c1 * c2 * c3 == safety(input.spec_bytes(), wi, hi));
    if counts[0] == 0 || counts[1] == 0 || counts[2] == 0 || counts[3] == 0 {
        assert(c0 * c1 * c2 * c3 == 0) by (nonlinear_arith)
            requires c0 == 0 || c1 == 0 || c2 == 0 || c3 == 0;
        return 0;
    }
    assert(c0 * c1 <= c0 * c1 * c2 * c3 && c0 * c1 * c2 <= c0 * c1 * c2 * c3) by (nonlinear_arith)
        requires c0 >= 1, c1 >= 1, c2 >= 1, c3 >= 1;
    counts[0] * counts[1] * counts[2] * counts[3]
}

/// The safety factor after 100 seconds on the 101 by 103 grid.
pub fn part1(input: &str) -> (r: u64)
    requires
        well_formed(input.spec_bytes()),
        safety(input.spec_bytes(), 101, 103) <= u64::MAX,
    ensures
        r == safety(input.spec_bytes(), 101, 103),
{
    quad_prod_vec(input, 101, 103)
}

pub open spec fn robot_x(s: Seq<u8>, i: int, t: int, w: int) -> int {
    let r = ints_of(lines_of(s)[i]);
    wrap(r[0], r[2], t, w)
}

pub open spec fn robot_y(s: Seq<u8>, i: int, t: int, h: int) -> int {
    let r = ints_of(lines_of(s)[i]);
    wrap(r[1], r[3], t, h)
}

/// Some robot stands on `(x, y)` after `t` seconds.
pub open spec fn occupied(s: Seq<u8>, t: int, w: int, h: int, x: int, y: int) -> bool {
    exists|i: int| 0 <= i < lines_of(s).len() && #[trigger] robot_x(s, i, t, w) == x && robot_y(s, i, t, h) == y
}

/// No two robots share a cell after `t` seconds.
pub open spec fn apart(s: Seq<u8>, t: int, w: int, h: int) -> bool {
    forall|i: int, j: int|
        0 <= i < j < lines_of(s).len() ==> !(#[trigger] robot_x(s, i, t, w) == #[trigger] robot_x(s, j, t, w)
            && robot_y(s, i, t, h) == robot_y(s, j, t, h))
}

/// Ten robots stand side by side in a row after `t` seconds.
pub open spec fn row_of_ten(s: Seq<u8>, t: int, w: int, h: int) -> bool {
    exists|y: int, x0: int|
        0 <= y < h && 0 <= x0 && x0 + 10 <= w && #[trigger] window(s, t, w, h, x0, y)
}

pub open spec fn window(s: Seq<u8>, t: int, w: int, h: int, x0: int, y: int) -> bool {
    forall|k: int| 0 <= k < 10 ==> #[trigger] occupied(s, t, w, h, x0 + k, y)
}

/// The robots show the picture: none share a cell and ten stand in a row.
pub open spec fn picture(s: Seq<u8>, t: int, w: int, h: int) -> bool {
    apart(s, t, w, h) && row_of_ten(s, t, w, h)
}

/// The first second from `t` on, before `limit`, that shows the picture.
pub open spec fn first_picture(s: Seq<u8>, w: int, h: int, t: nat, limit: nat) -> Option<nat>
    decreases limit - t,
{
    if t >= limit {
        None
    } else if picture(s, t as int, w, h) {
        Some(t)
    } else {
        first_picture(s, w, h, t + 1, limit)
    }
}

/// The cells the robots stand on after `t` seconds, row by row, and whether
/// two of them share one.
fn occupancy(ls: &Vec<Vec<u8>>, s: Ghost<Seq<u8>>, t: i64, w: i64, h: i64) -> (r: (Vec<bool>, bool))
    requires
        well_formed(s@),
        lines_of(s@).len() == ls@.len(),
        forall|k: int| 0 <= k < ls@.len() ==> #[trigger] ls@[k]@ == lines_of(s@)[k],
        0 <= t < 0x10_0000,
        0 < w < 0x1000,
        0 < h < 0x1000,
    ensures
        r.0@.len() == w * h,
        forall|x: int, y: int| 0 <= x < w && 0 <= y < h ==> #[trigger] r.0@[y * w + x] == occupied(s@, t as int, w as int, h as int, x, y),
        r.1 == !apart(s@, t as int, w as int, h as int),
{
    let ghost sl = lines_of(s@);
    assert(0 < w * h < 0x100_0000) by (nonlinear_arith)
        requires 0 < w < 0x1000, 0 < h < 0x1000;
    let total = (w * h) as usize;
    let mut occ: Vec<bool> = Vec::new();
    let mut j: usize = 0;
    while j < total
        invariant
            j <= total,
            occ@.len() == j,
            forall|i: int| 0 <= i < j ==> !(#[trigger] occ@[i]),
        decreases total - j,
    {
        occ.push(false);
        j = j + 1;
    }
    let mut dup = false;
    let mut i: usize = 0;
    proof {
        assert forall|x: int, y: int| 0 <= x < w && 0 <= y < h implies #[trigger] occ@[y * w + x] == exists|k: int|
            0 <= k < 0 && #[trigger] robot_x(s@, k, t as int, w as int) == x && robot_y(s@, k, t as int, h as int) == y by {
            assert(0 <= y * w + x < w * h) by (nonlinear_arith)
                requires 0 <= x < w, 0 <= y < h;
        }
    }
    while i < ls.len()
        invariant
            sl == lines_of(s@),
            well_formed(s@),
            sl.len() == ls@.len(),
            forall|k: int| 0 <= k < ls@.len() ==> #[trigger] ls@[k]@ == sl[k],
            0 <= t < 0x10_0000,
            0 < w < 0x1000,
            0 < h < 0x1000,
            total == w * h,
            occ@.len() == total,
            i <= ls@.len(),
            forall|x: int, y: int| 0 <= x < w && 0 <= y < h ==> #[trigger] occ@[y * w + x] == exists|k: int|
                0 <= k < i && #[trigger] robot_x(s@, k, t as int, w as int) == x && robot_y(s@, k, t as int, h as int) == y,
            dup == exists|a: int, b: int|
                0 <= a < b < i && #[trigger] robot_x(s@, a, t as int, w as int) == #[trigger] robot_x(s@, b, t as int, w as int)
                    && robot_y(s@, a, t as int, h as int) == robot_y(s@, b, t as int, h as int),
        decreases ls@.len() - i,
    {
        assert(small_ints(sl[i as int]) && ints_of(sl[i as int]).len() >= 4);
        let r = ints(ls[i].as_slice());
        assert(t * r@[2] < 0x10_0000 * 0x100_0000_0000 && t * r@[2] > -0x10_0000 * 0x100_0000_0000) by (nonlinear_arith)
            requires 0 <= t < 0x10_0000, -0x100_0000_0000 < r@[2] < 0x100_0000_0000;
        assert(t * r@[3] < 0x10_0000 * 0x100_0000_0000 && t * r@[3] > -0x10_0000 * 0x100_0000_0000) by (nonlinear_arith)
            requires 0 <= t < 0x10_0000, -0x100_0000_0000 < r@[3] < 0x100_0000_0000;
        let x = wrap_exec(r[0] + t * r[2], w);
        let y = wrap_exec(r[1] + t * r[3], h);
        assert(x == robot_x(s@, i as int, t as int, w as int));
        assert(y == robot_y(s@, i as int, t as int, h as int));
        assert(0 <= x < w && 0 <= y < h);
        assert(0 <= y * w < 0x100_0000) by (nonlinear_arith)
            requires 0 <= y < h, h < 0x1000, 0 < w < 0x1000;
        assert(0 <= y * w + x < w * h) by (nonlinear_arith)
            requires 0 <= x < w, 0 <= y < h;
        let idx = (y * w + x) as usize;
        let ghost before = occ@;
        let ghost old_dup = dup;
        if occ[idx] {
            dup = true;
        }
        occ.set(idx, true);
        proof {
            assert forall|x2: int, y2: int| 0 <= x2 < w && 0 <= y2 < h implies #[trigger] occ@[y2 * w + x2] == exists|k: int|
                0 <= k < i + 1 && #[trigger] robot_x(s@, k, t as int, w as int) == x2 && robot_y(s@, k, t as int, h as int) == y2 by {
                if x2 == x && y2 == y {
                    assert(robot_x(s@, i as int, t as int, w as int) == x2);
                } else {
                    assert(y2 * w + x2 != y * w + x) by (nonlinear_arith)
                        requires 0 <= x2 < w, 0 <= y2 < h, 0 <= x < w, 0 <= y < h, !(x2 == x && y2 == y);
                    assert(0 <= y2 * w + x2 < w * h) by (nonlinear_arith)
                        requires 0 <= x2 < w, 0 <= y2 < h;
                    assert(occ@[y2 * w + x2] == before[y2 * w + x2]);
                    if exists|k: int| 0 <= k < i + 1 && #[trigger] robot_x(s@, k, t as int, w as int) == x2 && robot_y(s@, k, t as int, h as int) == y2 {
                        let k = choose|k: int| 0 <= k < i + 1 && #[trigger] robot_x(s@, k, t as int, w as int) == x2 && robot_y(s@, k, t as int, h as int) == y2;
                        assert(k != i);
                    }
                }
            }
            assert(before[y * w + x] == exists|k: int|
                0 <= k < i && #[trigger] robot_x(s@, k, t as int, w as int) == x && robot_y(s@, k, t as int, h as int) == y);
            if dup {
                if old_dup {
                    let (a, b) = choose|a: int, b: int|
                        0 <= a < b < i && #[trigger] robot_x(s@, a, t as int, w as int) == #[trigger] robot_x(s@, b, t as int, w as int)
                            && robot_y(s@, a, t as int, h as int) == robot_y(s@, b, t as int, h as int);
                    assert(0 <= a < b < i + 1);
                } else {
                    let k = choose|k: int| 0 <= k < i && #[trigger] robot_x(s@, k, t as int, w as int) == x && robot_y(s@, k, t as int, h as int) == y;
                    assert(robot_x(s@, k, t as int, w as int) == robot_x(s@, i as int, t as int, w as int));
                }
            } else {
                assert forall|a: int, b: int| 0 <= a < b < i + 1 implies !(#[trigger] robot_x(s@, a, t as int, w as int) == #[trigger] robot_x(s@, b, t as int, w as int)
                    && robot_y(s@, a, t as int, h as int) == robot_y(s@, b, t as int, h as int)) by {
                    if b == i && robot_x(s@, a, t as int, w as int) == x && robot_y(s@, a, t as int, h as int) == y {
                        assert(before[y * w + x]);
                    }
                }
            }
        }
        i = i + 1;
    }
    (occ, dup)
}

/// Whether ten robots stand side by side in some row, given the cells they
/// stand on.
fn has_row_of_ten(occ: &Vec<bool>, s: Ghost<Seq<u8>>, t: Ghost<int>, w: i64, h: i64) -> (b: bool)
    requires
        0 < w < 0x1000,
        0 < h < 0x1000,
        occ@.len() == w * h,
        forall|x: int, y: int| 0 <= x < w && 0 <= y < h ==> #[trigger] occ@[y * w + x] == occupied(s@, t@, w as int, h as int, x, y),
    ensures
        b == row_of_ten(s@, t@, w as int, h as int),
{
    if w < 10 {
        return false;
    }
    let mut y: i64 = 0;
    while y < h
        invariant
            0 < w < 0x1000,
            10 <= w,
            0 < h < 0x1000,
            occ@.len() == w * h,
            forall|x: int, y: int| 0 <= x < w && 0 <= y < h ==> #[trigger] occ@[y * w + x] == occupied(s@, t@, w as int, h as int, x, y),
            0 <= y <= h,
            forall|y2: int, x0: int| 0 <= y2 < y && 0 <= x0 && x0 + 10 <= w ==> !#[trigger] window(s@, t@, w as int, h as int, x0, y2),
        decreases h - y,
    {
        let mut x0: i64 = 0;
        while x0 + 10 <= w
            invariant
                0 < w < 0x1000,
                10 <= w,
                0 < h < 0x1000,
                occ@.len() == w * h,
                forall|x: int, y: int| 0 <= x < w && 0 <= y < h ==> #[trigger] occ@[y * w + x] == occupied(s@, t@, w as int, h as int, x, y),
                0 <= y < h,
                0 <= x0 <= w - 9,
                forall|y2: int, x1: int| 0 <= y2 < y && 0 <= x1 && x1 + 10 <= w ==> !#[trigger] window(s@, t@, w as int, h as int, x1, y2),
                forall|x1: int| 0 <= x1 < x0 ==> !#[trigger] window(s@, t@, w as int, h as int, x1, y as int),
            decreases w - x0,
        {
            let mut k: i64 = 0;
            let mut full = true;
            let ghost mut miss: int = 0;
            while k < 10 && full
                invariant
                    0 < w < 0x1000,
                    0 < h < 0x1000,
                    occ@.len() == w * h,
                    forall|x: int, y: int| 0 <= x < w && 0 <= y < h ==> #[trigger] occ@[y * w + x] == occupied(s@, t@, w as int, h as int, x, y),
                    0 <= y < h,
                    0 <= x0,
                    x0 + 10 <= w,
                    0 <= k <= 10,
                    full ==> forall|j: int| 0 <= j < k ==> #[trigger] occupied(s@, t@, w as int, h as int, x0 + j, y as int),
                    !full ==> 0 <= miss < 10 && !occupied(s@, t@, w as int, h as int, x0 + miss, y as int),
                decreases 10 - k,
            {
                assert(0 <= y * w + x0 + k < w * h) by (nonlinear_arith)
                    requires 0 <= y < h, 0 <= x0, x0 + k < w, k >= 0;
                assert(0 <= y * w < 0x100_0000) by (nonlinear_arith)
                    requires 0 <= y < h, h < 0x1000, 0 < w < 0x1000;
                let idx = (y * w + x0 + k) as usize;
                assert(occ@[y * w + (x0 + k)] == occupied(s@, t@, w as int, h as int, x0 + k, y as int));
                if !occ[idx] {
                    full = false;
                    proof {
                        miss = k as int;
                    }
                }
                k = k + 1;
            }
            if full {
                assert(window(s@, t@, w as int, h as int, x0 as int, y as int));
                return true;
            }
            assert(!window(s@, t@, w as int, h as int, x0 as int, y as int)) by {
                assert(!occupied(s@, t@, w as int, h as int, x0 + miss, y as int));
            }
            x0 = x0 + 1;
        }
        y = y + 1;
    }
    false
}

/// The first second, within one full period of the 101 by 103 grid, at
/// which no two robots share a cell and ten stand side by side in a row;
/// none when no second of the period shows it.
pub fn part2(input: &str) -> (r: Option<u64>)
    requires
        well_formed(input.spec_bytes()),
    ensures
        match first_picture(input.spec_bytes(), 101, 103, 0, 101 * 103) {
            Some(t) => r == Some(t as u64),
            None => r is None,
        },
{
    let ghost s = input.spec_bytes();
    let ls = lines(input.as_bytes());
    let mut t: i64 = 0;
    while t < 101 * 103
        invariant
            s == input.spec_bytes(),
            well_formed(s),
            lines_of(s).len() == ls@.len(),
            forall|k: int| 0 <= k < ls@.len() ==> #[trigger] ls@[k]@ == lines_of(s)[k],
            0 <= t <= 101 * 103,
            first_picture(s, 101, 103, 0, 101 * 103) == first_picture(s, 101, 103, t as nat, 101 * 103),
        decreases 101 * 103 - t,
    {
        let (occ, dup) = occupancy(&ls, Ghost(s), t, 101, 103);
        if !dup && has_row_of_ten(&occ, Ghost(s), Ghost(t as int), 101, 103) {
            return Some(t as u64);
        }
        t = t + 1;
    }
    None
}

} // verus!
