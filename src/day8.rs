//! Antennas on a map: the places in line with two antennas of one frequency.
use vstd::prelude::*;
use vstd::string::StringSliceAdditionalSpecFns;
use crate::day10::at;
use crate::day4::one_if;
use crate::text::{cell_sum, grid, grid_of, lemma_cell_sum_bounds, lines_of, row_sum, sum, lemma_sum_prefix_le};

verus! {

/// An antenna stands at `(r, c)`: any byte of the map but `.`.
pub open spec fn antenna(g: Seq<Seq<u8>>, r: int, c: int) -> bool {
    at(g, r, c) >= 0 && at(g, r, c) != 46
}

/// Two different antennas of one frequency, at `(r1, c1)` and `(r2, c2)`.
pub open spec fn pair(g: Seq<Seq<u8>>, r1: int, c1: int, r2: int, c2: int) -> bool {
    antenna(g, r1, c1) && antenna(g, r2, c2) && at(g, r1, c1) == at(g, r2, c2) && (r1 != r2 || c1 != c2)
}

/// `(r, c)` lies beyond the antenna at `(r2, c2)`, `k` steps from it, each
/// step the distance from `(r1, c1)` to `(r2, c2)`.
pub open spec fn on_ray(r1: int, c1: int, r2: int, c2: int, k: int, r: int, c: int) -> bool {
    r == r2 + k * (r2 - r1) && c == c2 + k * (c2 - c1)
}

/// The pair of antennas at `(r1, c1)` and `(r2, c2)` puts `(r, c)` in line
/// beyond the second: one step beyond, or, with `harmonics`, any whole
/// number of steps (none included).
pub open spec fn witness(g: Seq<Seq<u8>>, r: int, c: int, harmonics: bool, r1: int, c1: int, r2: int, c2: int) -> bool {
    pair(g, r1, c1, r2, c2) && exists|k: int|
        #[trigger] on_ray(r1, c1, r2, c2, k, r, c) && (if harmonics { k >= 0 } else { k == 1 })
}

/// `(r, c)` is on the map and some pair of antennas of one frequency puts it
/// in line.
pub open spec fn antinode(g: Seq<Seq<u8>>, r: int, c: int, harmonics: bool) -> bool {
    at(g, r, c) >= 0 && exists|r1: int, c1: int, r2: int, c2: int| #[trigger] witness(g, r, c, harmonics, r1, c1, r2, c2)
}

pub open spec fn term(g: Seq<Seq<u8>>, harmonics: bool) -> spec_fn(int, int) -> int {
    |r: int, c: int| one_if(antinode(g, r, c, harmonics))
}

pub open spec fn answer(s: Seq<u8>, harmonics: bool) -> int {
    cell_sum(lines_of(s), term(lines_of(s), harmonics))
}

fn at_signed(g: &Vec<Vec<u8>>, r: i128, c: i128) -> (v: i32)
    ensures
        v == at(grid_of(g@), r as int, c as int),
{
    if r < 0 || c < 0 || r >= g.len() as i128 {
        return -1;
    }
    let ru = r as usize;
    if c >= g[ru].len() as i128 {
        return -1;
    }
    g[ru][c as usize] as i32
}

/// The whole number `k >= 0` with `e == k * d`, if there is one.
pub(crate) fn exact_steps(e: i128, d: i128) -> (k: Option<i128>)
    requires
        d != 0,
        -0x10_0000_0000_0000_0000_0000_0000 <= e <= 0x10_0000_0000_0000_0000_0000_0000,
        -0x10_0000_0000_0000_0000_0000_0000 <= d <= 0x10_0000_0000_0000_0000_0000_0000,
    ensures
        match k {
            Some(k) => k >= 0 && e == k * d,
            None => forall|j: int| j >= 0 ==> e != #[trigger] (j * d),
        },
{
    let a: i128 = if d > 0 { e } else { -e };
    let b: i128 = if d > 0 { d } else { -d };
    if a < 0 {
        assert forall|j: int| j >= 0 implies e != #[trigger] (j * d) by {
            assert((e == j * d) == (a == j * b)) by (nonlinear_arith)
                requires (d > 0 && a == e && b == d) || (d < 0 && a == -e && b == -d);
            assert(j * b >= 0) by (nonlinear_arith)
                requires j >= 0, b > 0;
        }
        return None;
    }
    let au = a as u128;
    let bu = b as u128;
    if au % bu != 0 {
        assert forall|j: int| j >= 0 implies e != #[trigger] (j * d) by {
            assert((e == j * d) == (a == j * b)) by (nonlinear_arith)
                requires (d > 0 && a == e && b == d) || (d < 0 && a == -e && b == -d);
            if a == j * b {
                assert((j * b) % (b as int) == 0) by (nonlinear_arith)
                    requires b > 0, j >= 0;
            }
        }
        return None;
    }
    let k = (au / bu) as i128;
    assert(k * b == a) by (nonlinear_arith)
        requires au % bu == 0, k == au / bu, bu > 0, au == a, bu == b;
    assert(e == k * d) by (nonlinear_arith)
        requires k * b == a, (d > 0 && a == e && b == d) || (d < 0 && a == -e && b == -d);
    Some(k)
}

/// The step count `k >= 0` that puts `(r, c)` on the ray, if there is one.
fn ray_steps(r1: i128, c1: i128, r2: i128, c2: i128, r: i128, c: i128) -> (k: Option<i128>)
    requires
        r1 != r2 || c1 != c2,
        0 <= r1 <= 0x1_0000_0000_0000_0000,
        0 <= c1 <= 0x1_0000_0000_0000_0000,
        0 <= r2 <= 0x1_0000_0000_0000_0000,
        0 <= c2 <= 0x1_0000_0000_0000_0000,
        0 <= r <= 0x1_0000_0000_0000_0000,
        0 <= c <= 0x1_0000_0000_0000_0000,
    ensures
        match k {
            Some(k) => k >= 0 && on_ray(r1 as int, c1 as int, r2 as int, c2 as int, k as int, r as int, c as int),
            None => forall|j: int|
                j >= 0 ==> !#[trigger] on_ray(r1 as int, c1 as int, r2 as int, c2 as int, j, r as int, c as int),
        },
{
    let dr = r2 - r1;
    let dc = c2 - c1;
    let er = r - r2;
    let ec = c - c2;
    if dr != 0 {
        let k = match exact_steps(er, dr) {
            Some(k) => k,
            None => return None,
        };
        if dc == 0 {
            if ec == 0 {
                assert(ec == k * dc);
                return Some(k);
            }
            assert forall|j: int| j >= 0 implies !#[trigger] on_ray(r1 as int, c1 as int, r2 as int, c2 as int, j, r as int, c as int) by {
                assert(j * dc == 0);
            }
            return None;
        }
        match exact_steps(ec, dc) {
            Some(k2) => {
                if k2 == k {
                    return Some(k);
                }
                assert forall|j: int| j >= 0 implies !#[trigger] on_ray(r1 as int, c1 as int, r2 as int, c2 as int, j, r as int, c as int) by {
                    if er == j * dr && ec == j * dc {
                        assert(j == k) by (nonlinear_arith)
                            requires er == j * dr, er == k * dr, dr != 0;
                        assert(j == k2) by (nonlinear_arith)
                            requires ec == j * dc, ec == k2 * dc, dc != 0;
                    }
                }
                None
            },
            None => None,
        }
    } else {
        let k = match exact_steps(ec, dc) {
            Some(k) => k,
            None => return None,
        };
        if er == 0 {
            assert(er == k * dr);
            return Some(k);
        }
        assert forall|j: int| j >= 0 implies !#[trigger] on_ray(r1 as int, c1 as int, r2 as int, c2 as int, j, r as int, c as int) by {
            assert(j * dr == 0);
        }
        None
    }
}

fn is_witness(g: &Vec<Vec<u8>>, r: usize, c: usize, harmonics: bool, r1: usize, c1: usize, r2: usize, c2: usize) -> (b: bool)
    ensures
        b == witness(grid_of(g@), r as int, c as int, harmonics, r1 as int, c1 as int, r2 as int, c2 as int),
{
    let ghost sg = grid_of(g@);
    let a1 = at_signed(g, r1 as i128, c1 as i128);
    let a2 = at_signed(g, r2 as i128, c2 as i128);
    if a1 < 0 || a1 == 46 || a1 != a2 || (r1 == r2 && c1 == c2) {
        return false;
    }
    let (r1, c1, r2, c2, r, c) = (r1 as i128, c1 as i128, r2 as i128, c2 as i128, r as i128, c as i128);
    if harmonics {
        match ray_steps(r1, c1, r2, c2, r, c) {
            Some(k) => {
                assert(on_ray(r1 as int, c1 as int, r2 as int, c2 as int, k as int, r as int, c as int));
                true
            },
            None => false,
        }
    } else {
        let ok = r == 2 * r2 - r1 && c == 2 * c2 - c1;
        if ok {
            assert(on_ray(r1 as int, c1 as int, r2 as int, c2 as int, 1, r as int, c as int));
        } else {
            assert(!on_ray(r1 as int, c1 as int, r2 as int, c2 as int, 1, r as int, c as int));
        }
        ok
    }
}

/// Whether some antenna pairs with the one at `(r1, c1)` to put `(r, c)` in
/// line.
fn any_partner(g: &Vec<Vec<u8>>, r: usize, c: usize, harmonics: bool, r1: usize, c1: usize) -> (b: bool)
    ensures
        b == exists|r2: int, c2: int| #[trigger] witness(grid_of(g@), r as int, c as int, harmonics, r1 as int, c1 as int, r2, c2),
{
    let ghost sg = grid_of(g@);
    let mut r2: usize = 0;
    while r2 < g.len()
        invariant
            sg == grid_of(g@),
            r2 <= g@.len(),
            forall|i: int, j: int| 0 <= i < r2 ==> !#[trigger] witness(sg, r as int, c as int, harmonics, r1 as int, c1 as int, i, j),
        decreases g@.len() - r2,
    {
        let mut c2: usize = 0;
        while c2 < g[r2].len()
            invariant
                sg == grid_of(g@),
                r2 < g@.len(),
                c2 <= g@[r2 as int]@.len(),
                forall|i: int, j: int| 0 <= i < r2 ==> !#[trigger] witness(sg, r as int, c as int, harmonics, r1 as int, c1 as int, i, j),
                forall|j: int| 0 <= j < c2 ==> !#[trigger] witness(sg, r as int, c as int, harmonics, r1 as int, c1 as int, r2 as int, j),
            decreases g@[r2 as int]@.len() - c2,
        {
            if is_witness(g, r, c, harmonics, r1, c1, r2, c2) {
                return true;
            }
            c2 = c2 + 1;
        }
        proof {
            assert forall|i: int, j: int| 0 <= i < r2 + 1 implies !#[trigger] witness(sg, r as int, c as int, harmonics, r1 as int, c1 as int, i, j) by {
                if i == r2 && !(0 <= j < c2) {
                    assert(!antenna(sg, i, j));
                }
            }
        }
        r2 = r2 + 1;
    }
    proof {
        assert forall|i: int, j: int| !#[trigger] witness(sg, r as int, c as int, harmonics, r1 as int, c1 as int, i, j) by {
            if !(0 <= i < r2) {
                assert(!antenna(sg, i, j));
            }
        }
    }
    false
}

fn is_antinode(g: &Vec<Vec<u8>>, r: usize, c: usize, harmonics: bool) -> (b: bool)
    ensures
        b == antinode(grid_of(g@), r as int, c as int, harmonics),
{
    let ghost sg = grid_of(g@);
    if at_signed(g, r as i128, c as i128) < 0 {
        return false;
    }
    let mut r1: usize = 0;
    while r1 < g.len()
        invariant
            sg == grid_of(g@),
            at(sg, r as int, c as int) >= 0,
            r1 <= g@.len(),
            forall|i: int, j: int, k: int, l: int| 0 <= i < r1 ==> !#[trigger] witness(sg, r as int, c as int, harmonics, i, j, k, l),
        decreases g@.len() - r1,
    {
        let mut c1: usize = 0;
        while c1 < g[r1].len()
            invariant
                sg == grid_of(g@),
                at(sg, r as int, c as int) >= 0,
                r1 < g@.len(),
                c1 <= g@[r1 as int]@.len(),
                forall|i: int, j: int, k: int, l: int| 0 <= i < r1 ==> !#[trigger] witness(sg, r as int, c as int, harmonics, i, j, k, l),
                forall|j: int, k: int, l: int| 0 <= j < c1 ==> !#[trigger] witness(sg, r as int, c as int, harmonics, r1 as int, j, k, l),
            decreases g@[r1 as int]@.len() - c1,
        {
            if any_partner(g, r, c, harmonics, r1, c1) {
                proof {
                    let (r2, c2) = choose|r2: int, c2: int|
                        #[trigger] witness(sg, r as int, c as int, harmonics, r1 as int, c1 as int, r2, c2);
                    assert(witness(sg, r as int, c as int, harmonics, r1 as int, c1 as int, r2, c2));
                }
                return true;
            }
            c1 = c1 + 1;
        }
        proof {
            assert forall|i: int, j: int, k: int, l: int| 0 <= i < r1 + 1 implies !#[trigger] witness(sg, r as int, c as int, harmonics, i, j, k, l) by {
                if i == r1 && !(0 <= j < c1) {
                    assert(!antenna(sg, i, j));
                }
            }
        }
        r1 = r1 + 1;
    }
    proof {
        assert forall|i: int, j: int, k: int, l: int| !#[trigger] witness(sg, r as int, c as int, harmonics, i, j, k, l) by {
            if !(0 <= i < r1) {
                assert(!antenna(sg, i, j));
            }
        }
    }
    false
}

fn total(input: &str, harmonics: bool) -> (n: u64)
    requires
        answer(input.spec_bytes(), harmonics) <= u64::MAX,
    ensures
        n == answer(input.spec_bytes(), harmonics),
{
    let g = grid(input.as_bytes());
    let ghost sg = grid_of(g@);
    let ghost t = term(sg, harmonics);
    let ghost rows = Seq::new(sg.len(), |i: int| row_sum(sg, t, i));
    proof {
        assert forall|i: int, j: int| #[trigger] t(i, j) >= 0 by {}
        assert forall|i: int| 0 <= i < rows.len() implies #[trigger] rows[i] >= 0 by {
            lemma_cell_sum_bounds(sg, t, i, 0);
        }
    }
    let mut total: u64 = 0;
    let mut r: usize = 0;
    while r < g.len()
        invariant
            sg == grid_of(g@),
            t == term(sg, harmonics),
            rows == Seq::new(sg.len(), |i: int| row_sum(sg, t, i)),
            forall|i: int| 0 <= i < rows.len() ==> #[trigger] rows[i] >= 0,
            forall|i: int, j: int| #[trigger] t(i, j) >= 0,
            sum(rows) <= u64::MAX,
            r <= g@.len(),
            total == sum(rows.take(r as int)),
        decreases g@.len() - r,
    {
        let ghost cells = Seq::new(sg[r as int].len(), |j: int| t(r as int, j));
        let mut row: u64 = 0;
        let mut c: usize = 0;
        proof {
            lemma_sum_prefix_le(rows, r + 1);
            assert(rows.take(r + 1).drop_last() == rows.take(r as int));
        }
        while c < g[r].len()
            invariant
                sg == grid_of(g@),
                r < g@.len(),
                t == term(sg, harmonics),
                cells == Seq::new(sg[r as int].len(), |j: int| t(r as int, j)),
                forall|i: int, j: int| #[trigger] t(i, j) >= 0,
                total + sum(cells) <= u64::MAX,
                c <= g@[r as int]@.len(),
                row == sum(cells.take(c as int)),
            decreases g@[r as int]@.len() - c,
        {
            proof {
                assert forall|j: int| 0 <= j < cells.len() implies #[trigger] cells[j] >= 0 by {}
                lemma_sum_prefix_le(cells, c + 1);
                assert(cells.take(c + 1).drop_last() == cells.take(c as int));
            }
            let v: u64 = if is_antinode(&g, r, c, harmonics) { 1 } else { 0 };
            row = row + v;
            c = c + 1;
        }
        proof {
            assert(cells.take(c as int) == cells);
        }
        total = total + row;
        r = r + 1;
    }
    assert(rows.take(r as int) == rows);
    total
}

/// The number of places on the map one step beyond a pair of antennas of
/// one frequency.
pub fn part1(input: &str) -> (r: u64)
    requires
        answer(input.spec_bytes(), false) <= u64::MAX,
    ensures
        r == answer(input.spec_bytes(), false),
{
    total(input, false)
}

/// The number of places on the map in line with a pair of antennas of one
/// frequency, any whole number of steps beyond one of them.
pub fn part2(input: &str) -> (r: u64)
    requires
        answer(input.spec_bytes(), true) <= u64::MAX,
    ensures
        r == answer(input.spec_bytes(), true),
{
    total(input, true)
}

} // verus!
