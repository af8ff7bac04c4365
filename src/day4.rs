//! A word search: every `XMAS` in the eight directions, and every `MAS`
//! crossed with another in the shape of an X.
use vstd::prelude::*;
use vstd::string::StringSliceAdditionalSpecFns;
use crate::day10::at;
use crate::text::{cell_sum, grid, grid_of, lemma_cell_sum_bounds, lines_of, row_sum, sum, lemma_sum_prefix_le};

verus! {

/// `XMAS`
pub open spec fn xmas() -> Seq<u8> {
    seq![88u8, 77u8, 65u8, 83u8]
}

/// The letters of `w` from position `i` on stand from `(r, c)` on, one step
/// of `(dr, dc)` apart.
pub open spec fn reads(g: Seq<Seq<u8>>, r: int, c: int, dr: int, dc: int, w: Seq<u8>, i: nat) -> bool
    decreases w.len() - i,
{
    if i >= w.len() {
        true
    } else {
        at(g, r, c) == w[i as int] as int && reads(g, r + dr, c + dc, dr, dc, w, i + 1)
    }
}

pub open spec fn one_if(b: bool) -> int {
    if b { 1 } else { 0 }
}

/// The number of directions in which `XMAS` reads from `(r, c)`.
pub open spec fn xmas_count(g: Seq<Seq<u8>>, r: int, c: int) -> int {
    one_if(reads(g, r, c, -1, -1, xmas(), 0)) + one_if(reads(g, r, c, -1, 0, xmas(), 0))
        + one_if(reads(g, r, c, -1, 1, xmas(), 0)) + one_if(reads(g, r, c, 0, -1, xmas(), 0))
        + one_if(reads(g, r, c, 0, 1, xmas(), 0)) + one_if(reads(g, r, c, 1, -1, xmas(), 0))
        + one_if(reads(g, r, c, 1, 0, xmas(), 0)) + one_if(reads(g, r, c, 1, 1, xmas(), 0))
}

/// The two cells at `(r1, c1)` and `(r2, c2)` hold an `M` and an `S`.
pub open spec fn m_and_s(g: Seq<Seq<u8>>, r1: int, c1: int, r2: int, c2: int) -> bool {
    (at(g, r1, c1) == 77 && at(g, r2, c2) == 83) || (at(g, r1, c1) == 83 && at(g, r2, c2) == 77)
}

/// `(r, c)` is the `A` in the middle of two crossed `MAS`.
pub open spec fn x_mas(g: Seq<Seq<u8>>, r: int, c: int) -> bool {
    at(g, r, c) == 65 && m_and_s(g, r - 1, c - 1, r + 1, c + 1) && m_and_s(g, r - 1, c + 1, r + 1, c - 1)
}

pub open spec fn term(g: Seq<Seq<u8>>, crossed: bool) -> spec_fn(int, int) -> int {
    |r: int, c: int| if crossed { one_if(x_mas(g, r, c)) } else { xmas_count(g, r, c) }
}

pub open spec fn answer(s: Seq<u8>, crossed: bool) -> int {
    cell_sum(lines_of(s), term(lines_of(s), crossed))
}

pub(crate) fn at_signed(g: &Vec<Vec<u8>>, r: i128, c: i128) -> (v: i32)
    ensures
        v == at(grid_of(g@), r as int, c as int),
        v >= 0 ==> 0 <= r <= usize::MAX && 0 <= c <= usize::MAX,
{
    if r < 0 || c < 0 || r >= g.len() as i128 {
        return -1;
    }
    let ru = r as usize;
    if c >= g[ru].len() as i128 {
        return -1;
    }
    g[ru][c as usize] as i32
}

fn reads_exec(g: &Vec<Vec<u8>>, r: i128, c: i128, dr: i128, dc: i128, w: &Vec<u8>) -> (b: bool)
    requires
        -1 <= dr <= 1,
        -1 <= dc <= 1,
        w@.len() <= 4,
        -0x1_0000_0000_0000_0000 <= r <= 0x1_0000_0000_0000_0000,
        -0x1_0000_0000_0000_0000 <= c <= 0x1_0000_0000_0000_0000,
    ensures
        b == reads(grid_of(g@), r as int, c as int, dr as int, dc as int, w@, 0),
{
    let ghost sg = grid_of(g@);
    let mut i: usize = 0;
    let mut pr = r;
    let mut pc = c;
    while i < w.len()
        invariant
            sg == grid_of(g@),
            -1 <= dr <= 1,
            -1 <= dc <= 1,
            w@.len() <= 4,
            i <= w@.len(),
            pr == r + dr * i,
            pc == c + dc * i,
            -0x1_0000_0000_0000_0000 <= r <= 0x1_0000_0000_0000_0000,
            -0x1_0000_0000_0000_0000 <= c <= 0x1_0000_0000_0000_0000,
            reads(sg, r as int, c as int, dr as int, dc as int, w@, 0) == reads(sg, pr as int, pc as int, dr as int, dc as int, w@, i as nat),
        decreases w@.len() - i,
    {
        if at_signed(g, pr, pc) != w[i] as i32 {
            return false;
        }
        assert(dr * (i + 1) == dr * i + dr && dc * (i + 1) == dc * i + dc) by (nonlinear_arith);
        i = i + 1;
        pr = pr + dr;
        pc = pc + dc;
    }
    true
}

fn cell_term(g: &Vec<Vec<u8>>, r: usize, c: usize, crossed: bool, w: &Vec<u8>) -> (v: u64)
    requires
        w@ == xmas(),
    ensures
        v == term(grid_of(g@), crossed)(r as int, c as int),
{
    let ghost sg = grid_of(g@);
    let r = r as i128;
    let c = c as i128;
    if crossed {
        let ok = at_signed(g, r, c) == 65
            && ((at_signed(g, r - 1, c - 1) == 77 && at_signed(g, r + 1, c + 1) == 83)
                || (at_signed(g, r - 1, c - 1) == 83 && at_signed(g, r + 1, c + 1) == 77))
            && ((at_signed(g, r - 1, c + 1) == 77 && at_signed(g, r + 1, c - 1) == 83)
                || (at_signed(g, r - 1, c + 1) == 83 && at_signed(g, r + 1, c - 1) == 77));
        if ok { 1 } else { 0 }
    } else {
        let mut n: u64 = 0;
        if reads_exec(g, r, c, -1, -1, w) { n = n + 1; }
        if reads_exec(g, r, c, -1, 0, w) { n = n + 1; }
        if reads_exec(g, r, c, -1, 1, w) { n = n + 1; }
        if reads_exec(g, r, c, 0, -1, w) { n = n + 1; }
        if reads_exec(g, r, c, 0, 1, w) { n = n + 1; }
        if reads_exec(g, r, c, 1, -1, w) { n = n + 1; }
        if reads_exec(g, r, c, 1, 0, w) { n = n + 1; }
        if reads_exec(g, r, c, 1, 1, w) { n = n + 1; }
        n
    }
}

fn total(input: &str, crossed: bool) -> (n: u64)
    requires
        answer(input.spec_bytes(), crossed) <= u64::MAX,
    ensures
        n == answer(input.spec_bytes(), crossed),
{
    let g = grid(input.as_bytes());
    let w: Vec<u8> = vec![88u8, 77u8, 65u8, 83u8];
    assert(w@ =~= xmas());
    let ghost sg = grid_of(g@);
    let ghost t = term(sg, crossed);
    let ghost rows = Seq::new(sg.len(), |i: int| row_sum(sg, t, i));
    proof {
        assert forall|i: int, j: int| #[trigger] t(i, j) >= 0 by {}
        assert forall|i: int| 0 <= i < rows.len() implies #[trigger] rows[i] >= 0 by {
            lemma_cell_sum_bounds(sg, t, i, 0);
        }
    }
    let mut total: u64 = 0;
    let mut r: usize = 0;
    while r < g.len()
        invariant
            w@ == xmas(),
            sg == grid_of(g@),
            t == term(sg, crossed),
            rows == Seq::new(sg.len(), |i: int| row_sum(sg, t, i)),
            forall|i: int| 0 <= i < rows.len() ==> #[trigger] rows[i] >= 0,
            forall|i: int, j: int| #[trigger] t(i, j) >= 0,
            sum(rows) <= u64::MAX,
            r <= g@.len(),
            total == sum(rows.take(r as int)),
        decreases g@.len() - r,
    {
        let ghost cells = Seq::new(sg[r as int].len(), |j: int| t(r as int, j));
        let mut row: u64 = 0;
        let mut c: usize = 0;
        proof {
            lemma_sum_prefix_le(rows, r + 1);
            assert(rows.take(r + 1).drop_last() == rows.take(r as int));
        }
        while c < g[r].len()
            invariant
                w@ == xmas(),
                sg == grid_of(g@),
                r < g@.len(),
                t == term(sg, crossed),
                cells == Seq::new(sg[r as int].len(), |j: int| t(r as int, j)),
                forall|i: int, j: int| #[trigger] t(i, j) >= 0,
                total + sum(cells) <= u64::MAX,
                c <= g@[r as int]@.len(),
                row == sum(cells.take(c as int)),
            decreases g@[r as int]@.len() - c,
        {
            proof {
                assert forall|j: int| 0 <= j < cells.len() implies #[trigger] cells[j] >= 0 by {}
                lemma_sum_prefix_le(cells, c + 1);
                assert(cells.take(c + 1).drop_last() == cells.take(c as int));
            }
            let v = cell_term(&g, r, c, crossed, &w);
            row = row + v;
            c = c + 1;
        }
        proof {
            assert(cells.take(c as int) == cells);
        }
        total = total + row;
        r = r + 1;
    }
    assert(rows.take(r as int) == rows);
    total
}

/// The number of times `XMAS` reads in any of the eight directions.
pub fn part1(input: &str) -> (r: u64)
    requires
        answer(input.spec_bytes(), false) <= u64::MAX,
    ensures
        r == answer(input.spec_bytes(), false),
{
    total(input, false)
}

/// The number of `A`s at the crossing of two diagonal `MAS`, each read in
/// either direction.
pub fn part2(input: &str) -> (r: u64)
    requires
        answer(input.spec_bytes(), true) <= u64::MAX,
    ensures
        r == answer(input.spec_bytes(), true),
{
    total(input, true)
}

} // verus!
