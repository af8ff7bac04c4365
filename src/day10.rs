//! A topographic map: hiking trails climb one height at a time from 0 to 9.
use vstd::prelude::*;
use vstd::string::StringSliceAdditionalSpecFns;
use crate::text::{cell_sum, grid, grid_of, lemma_cell_sum_bounds, lines_of, row_sum, sum, lemma_sum_prefix_le};

verus! {

/// The byte at row `r`, column `c`, or -1 outside the map.
pub open spec fn at(g: Seq<Seq<u8>>, r: int, c: int) -> int {
    if 0 <= r < g.len() && 0 <= c < g[r].len() {
        g[r][c] as int
    } else {
        -1
    }
}

/// A step from `(r, c)` to `(r2, c2)` climbs by exactly one.
pub open spec fn climbs(g: Seq<Seq<u8>>, r: int, c: int, r2: int, c2: int) -> bool {
    at(g, r, c) >= 0 && at(g, r2, c2) == at(g, r, c) + 1
}

/// The number of trails from `(r, c)` to a `9`, each step to a neighbour one
/// higher.
pub open spec fn trails(g: Seq<Seq<u8>>, r: int, c: int) -> nat
    decreases 256 - at(g, r, c),
{
    if at(g, r, c) < 0 {
        0
    } else if at(g, r, c) == 57 {
        1
    } else {
        (if climbs(g, r, c, r - 1, c) { trails(g, r - 1, c) } else { 0 })
            + (if climbs(g, r, c, r + 1, c) { trails(g, r + 1, c) } else { 0 })
            + (if climbs(g, r, c, r, c - 1) { trails(g, r, c - 1) } else { 0 })
            + (if climbs(g, r, c, r, c + 1) { trails(g, r, c + 1) } else { 0 })
    }
}

/// Some trail leads from `(r, c)` to the `9` at `(tr, tc)`.
pub open spec fn reaches(g: Seq<Seq<u8>>, r: int, c: int, tr: int, tc: int) -> bool
    decreases 256 - at(g, r, c),
{
    if at(g, r, c) < 0 {
        false
    } else if at(g, r, c) == 57 {
        r == tr && c == tc
    } else {
        (climbs(g, r, c, r - 1, c) && reaches(g, r - 1, c, tr, tc))
            || (climbs(g, r, c, r + 1, c) && reaches(g, r + 1, c, tr, tc))
            || (climbs(g, r, c, r, c - 1) && reaches(g, r, c - 1, tr, tc))
            || (climbs(g, r, c, r, c + 1) && reaches(g, r, c + 1, tr, tc))
    }
}

/// Counts one for the `9` at `(tr, tc)` when a trail from `(r, c)` reaches it.
pub open spec fn nine_term(g: Seq<Seq<u8>>, r: int, c: int) -> spec_fn(int, int) -> int {
    |tr: int, tc: int| if at(g, tr, tc) == 57 && reaches(g, r, c, tr, tc) { 1int } else { 0int }
}

/// The number of `9`s that trails from `(r, c)` reach.
pub open spec fn score(g: Seq<Seq<u8>>, r: int, c: int) -> int {
    cell_sum(g, nine_term(g, r, c))
}

/// What a trailhead `(r, c)` adds: its score, or its number of trails.
pub open spec fn start_term(g: Seq<Seq<u8>>, rating: bool) -> spec_fn(int, int) -> int {
    |r: int, c: int|
        if at(g, r, c) != 48 {
            0int
        } else if rating {
            trails(g, r, c) as int
        } else {
            score(g, r, c)
        }
}

pub open spec fn answer(s: Seq<u8>, rating: bool) -> int {
    cell_sum(lines_of(s), start_term(lines_of(s), rating))
}

proof fn lemma_terms_nonneg(g: Seq<Seq<u8>>)
    ensures
        forall|r: int, c: int, i: int, j: int| #[trigger] nine_term(g, r, c)(i, j) >= 0,
        forall|i: int, j: int| #[trigger] start_term(g, true)(i, j) >= 0,
        forall|i: int, j: int| #[trigger] start_term(g, false)(i, j) >= 0,
{
    assert forall|r: int, c: int| #[trigger] score(g, r, c) >= 0 by {
        let t = nine_term(g, r, c);
        assert(forall|i: int, j: int| #[trigger] t(i, j) >= 0);
        let rows = Seq::new(g.len(), |i: int| row_sum(g, t, i));
        assert forall|i: int| 0 <= i < rows.len() implies #[trigger] rows[i] >= 0 by {
            lemma_cell_sum_bounds(g, t, i, 0);
        }
        lemma_sum_prefix_le(rows, rows.len() as int);
        assert(rows.take(rows.len() as int) == rows);
    }
}

fn at_exec(g: &Vec<Vec<u8>>, r: usize, c: usize) -> (v: i32)
    ensures
        v == at(grid_of(g@), r as int, c as int),
        v >= 0 ==> r + 1 <= usize::MAX && c + 1 <= usize::MAX,
{
    if r < g.len() && c < g[r].len() {
        let _ = g[r].len();
        g[r][c] as i32
    } else {
        -1
    }
}

/// The number of trails from `(r, c)`.
fn count_trails(g: &Vec<Vec<u8>>, r: usize, c: usize) -> (n: u64)
    requires
        trails(grid_of(g@), r as int, c as int) <= u64::MAX,
    ensures
        n == trails(grid_of(g@), r as int, c as int),
    decreases 256 - at(grid_of(g@), r as int, c as int),
{
    let ghost sg = grid_of(g@);
    let h = at_exec(g, r, c);
    if h < 0 {
        return 0;
    }
    if h == 57 {
        return 1;
    }
    let mut n: u64 = 0;
    if r > 0 && at_exec(g, r - 1, c) == h + 1 {
        n = n + count_trails(g, r - 1, c);
    }
    if at_exec(g, r + 1, c) == h + 1 {
        n = n + count_trails(g, r + 1, c);
    }
    if c > 0 && at_exec(g, r, c - 1) == h + 1 {
        n = n + count_trails(g, r, c - 1);
    }
    if at_exec(g, r, c + 1) == h + 1 {
        n = n + count_trails(g, r, c + 1);
    }
    n
}

/// Whether a trail from `(r, c)` reaches `(tr, tc)`.
fn trail_reaches(g: &Vec<Vec<u8>>, r: usize, c: usize, tr: usize, tc: usize) -> (b: bool)
    ensures
        b == reaches(grid_of(g@), r as int, c as int, tr as int, tc as int),
    decreases 256 - at(grid_of(g@), r as int, c as int),
{
    let h = at_exec(g, r, c);
    if h < 0 {
        return false;
    }
    if h == 57 {
        return r == tr && c == tc;
    }
    (r > 0 && at_exec(g, r - 1, c) == h + 1 && trail_reaches(g, r - 1, c, tr, tc))
        || (at_exec(g, r + 1, c) == h + 1 && trail_reaches(g, r + 1, c, tr, tc))
        || (c > 0 && at_exec(g, r, c - 1) == h + 1 && trail_reaches(g, r, c - 1, tr, tc))
        || (at_exec(g, r, c + 1) == h + 1 && trail_reaches(g, r, c + 1, tr, tc))
}

/// The number of `9`s that trails from `(r0, c0)` reach.
fn count_nines(g: &Vec<Vec<u8>>, r0: usize, c0: usize) -> (n: u64)
    requires
        score(grid_of(g@), r0 as int, c0 as int) <= u64::MAX,
    ensures
        n == score(grid_of(g@), r0 as int, c0 as int),
{
    let ghost sg = grid_of(g@);
    let ghost t = nine_term(sg, r0 as int, c0 as int);
    let ghost rows = Seq::new(sg.len(), |i: int| row_sum(sg, t, i));
    proof {
        lemma_terms_nonneg(sg);
        assert forall|i: int| 0 <= i < rows.len() implies #[trigger] rows[i] >= 0 by {
            lemma_cell_sum_bounds(sg, t, i, 0);
        }
    }
    let mut total: u64 = 0;
    let mut r: usize = 0;
    while r < g.len()
        invariant
            sg == grid_of(g@),
            t == nine_term(sg, r0 as int, c0 as int),
            rows == Seq::new(sg.len(), |i: int| row_sum(sg, t, i)),
            forall|i: int| 0 <= i < rows.len() ==> #[trigger] rows[i] >= 0,
            forall|i: int, j: int| #[trigger] t(i, j) >= 0,
            sum(rows) <= u64::MAX,
            r <= g@.len(),
            total == sum(rows.take(r as int)),
        decreases g@.len() - r,
    {
        let ghost cells = Seq::new(sg[r as int].len(), |j: int| t(r as int, j));
        let mut row: u64 = 0;
        let mut c: usize = 0;
        proof {
            lemma_sum_prefix_le(rows, r + 1);
            assert(rows.take(r + 1).drop_last() == rows.take(r as int));
        }
        while c < g[r].len()
            invariant
                sg == grid_of(g@),
                r < g@.len(),
                t == nine_term(sg, r0 as int, c0 as int),
                cells == Seq::new(sg[r as int].len(), |j: int| t(r as int, j)),
                forall|i: int, j: int| #[trigger] t(i, j) >= 0,
                total + sum(cells) <= u64::MAX,
                c <= g@[r as int]@.len(),
                row == sum(cells.take(c as int)),
            decreases g@[r as int]@.len() - c,
        {
            let v: u64 = if at_exec(g, r, c) == 57 && trail_reaches(g, r0, c0, r, c) { 1 } else { 0 };
            proof {
                assert(cells[c as int] == v);
                assert forall|j: int| 0 <= j < cells.len() implies #[trigger] cells[j] >= 0 by {}
                lemma_sum_prefix_le(cells, c + 1);
                assert(cells.take(c + 1).drop_last() == cells.take(c as int));
            }
            row = row + v;
            c = c + 1;
        }
        proof {
            assert(cells.take(c as int) == cells);
        }
        total = total + row;
        r = r + 1;
    }
    assert(rows.take(r as int) == rows);
    total
}

/// The sum over the trailheads of their scores, or of their numbers of
/// trails.
fn starts_total(g: &Vec<Vec<u8>>, rating: bool) -> (n: u64)
    requires
        cell_sum(grid_of(g@), start_term(grid_of(g@), rating)) <= u64::MAX,
    ensures
        n == cell_sum(grid_of(g@), start_term(grid_of(g@), rating)),
{
    let ghost sg = grid_of(g@);
    let ghost t = start_term(sg, rating);
    let ghost rows = Seq::new(sg.len(), |i: int| row_sum(sg, t, i));
    proof {
        lemma_terms_nonneg(sg);
        assert forall|i: int| 0 <= i < rows.len() implies #[trigger] rows[i] >= 0 by {
            lemma_cell_sum_bounds(sg, t, i, 0);
        }
    }
    let mut total: u64 = 0;
    let mut r: usize = 0;
    while r < g.len()
        invariant
            sg == grid_of(g@),
            t == start_term(sg, rating),
            rows == Seq::new(sg.len(), |i: int| row_sum(sg, t, i)),
            forall|i: int| 0 <= i < rows.len() ==> #[trigger] rows[i] >= 0,
            forall|i: int, j: int| #[trigger] t(i, j) >= 0,
            sum(rows) <= u64::MAX,
            r <= g@.len(),
            total == sum(rows.take(r as int)),
        decreases g@.len() - r,
    {
        let ghost cells = Seq::new(sg[r as int].len(), |j: int| t(r as int, j));
        let mut row: u64 = 0;
        let mut c: usize = 0;
        proof {
            lemma_sum_prefix_le(rows, r + 1);
            assert(rows.take(r + 1).drop_last() == rows.take(r as int));
        }
        while c < g[r].len()
            invariant
                sg == grid_of(g@),
                r < g@.len(),
                t == start_term(sg, rating),
                cells == Seq::new(sg[r as int].len(), |j: int| t(r as int, j)),
                forall|i: int, j: int| #[trigger] t(i, j) >= 0,
                total + sum(cells) <= u64::MAX,
                c <= g@[r as int]@.len(),
                row == sum(cells.take(c as int)),
            decreases g@[r as int]@.len() - c,
        {
            proof {
                assert forall|j: int| 0 <= j < cells.len() implies #[trigger] cells[j] >= 0 by {}
                lemma_sum_prefix_le(cells, c + 1);
                assert(cells.take(c + 1).drop_last() == cells.take(c as int));
            }
            let v: u64 = if at_exec(g, r, c) != 48 {
                0
            } else if rating {
                count_trails(g, r, c)
            } else {
                count_nines(g, r, c)
            };
            proof {
                assert(cells[c as int] == v);
            }
            row = row + v;
            c = c + 1;
        }
        proof {
            assert(cells.take(c as int) == cells);
        }
        total = total + row;
        r = r + 1;
    }
    assert(rows.take(r as int) == rows);
    total
}

/// The sum of the scores of all trailheads: for each `0`, the number of `9`s
/// that trails from it reach.
pub fn part1(input: &str) -> (r: u64)
    requires
        answer(input.spec_bytes(), false) <= u64::MAX,
    ensures
        r == answer(input.spec_bytes(), false),
{
    let g = grid(input.as_bytes());
    starts_total(&g, false)
}

/// The sum of the ratings of all trailheads: for each `0`, the number of
/// trails from it.
pub fn part2(input: &str) -> (r: u64)
    requires
        answer(input.spec_bytes(), true) <= u64::MAX,
    ensures
        r == answer(input.spec_bytes(), true),
{
    let g = grid(input.as_bytes());
    starts_total(&g, true)
}

} // verus!
