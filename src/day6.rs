//! A guard who walks ahead and turns right at each obstruction: where the
//! guard goes before leaving the map, and where one more obstruction would
//! trap the guard in a loop.
use vstd::prelude::*;
use vstd::string::StringSliceAdditionalSpecFns;
use crate::day10::at;
use crate::day4::{at_signed, one_if};
use crate::text::{cell_sum, grid, grid_of, lemma_cell_sum_bounds, lines_of, row_sum, sum, lemma_sum_prefix_le};

verus! {

/// The guard: column, row and heading (0 up, 1 right, 2 down, 3 left).
pub struct Guard {
    pub x: int,
    pub y: int,
    pub d: int,
}

pub open spec fn ahead_x(s: Guard) -> int {
    if s.d == 1 { s.x + 1 } else if s.d == 3 { s.x - 1 } else { s.x }
}

pub open spec fn ahead_y(s: Guard) -> int {
    if s.d == 0 { s.y - 1 } else if s.d == 2 { s.y + 1 } else { s.y }
}

/// `(x, y)` holds a `#`, or is the extra obstruction `(ox, oy)`.
pub open spec fn blocked(g: Seq<Seq<u8>>, ox: int, oy: int, x: int, y: int) -> bool {
    at(g, y, x) == 35 || (x == ox && y == oy)
}

/// One move: turn right when the cell ahead is blocked, else step into it.
pub open spec fn step(g: Seq<Seq<u8>>, ox: int, oy: int, s: Guard) -> Guard {
    if blocked(g, ox, oy, ahead_x(s), ahead_y(s)) {
        Guard { x: s.x, y: s.y, d: (s.d + 1) % 4 }
    } else {
        Guard { x: ahead_x(s), y: ahead_y(s), d: s.d }
    }
}

/// The guard after `k` moves from `s`.
pub open spec fn state_at(g: Seq<Seq<u8>>, ox: int, oy: int, s: Guard, k: nat) -> Guard
    decreases k,
{
    if k == 0 { s } else { step(g, ox, oy, state_at(g, ox, oy, s, (k - 1) as nat)) }
}

/// The next move takes the guard off the map.
pub open spec fn leaving(g: Seq<Seq<u8>>, s: Guard) -> bool {
    at(g, ahead_y(s), ahead_x(s)) < 0
}

/// The first number of moves from `k` on, below `n`, after which the guard
/// is about to leave.
pub open spec fn exit_from(g: Seq<Seq<u8>>, ox: int, oy: int, s: Guard, k: nat, n: nat) -> Option<nat>
    decreases n - k,
{
    if k >= n {
        None
    } else if leaving(g, state_at(g, ox, oy, s, k)) {
        Some(k)
    } else {
        exit_from(g, ox, oy, s, k + 1, n)
    }
}

/// The guard at `(x, y)` heading up.
pub open spec fn start_of(x: int, y: int) -> Guard {
    Guard { x, y, d: 0 }
}

/// The number of moves after which a walk stops counting as a way off the
/// map: four headings on every cell of a map drawn with at most `len`
/// bytes, and one more. A walk that has not left by then repeats a state
/// and never leaves.
pub open spec fn limit(len: nat) -> nat {
    4 * len + 4
}

/// The guard stands on `(x, y)` at some point of the walk from `s` before it
/// leaves after `e` moves.
pub open spec fn visits(g: Seq<Seq<u8>>, s: Guard, e: nat, x: int, y: int) -> bool {
    exists|k: nat| k <= e && #[trigger] state_at(g, -1, -1, s, k).x == x && state_at(g, -1, -1, s, k).y == y
}

/// The map has exactly one `^`, where the guard starts.
pub open spec fn one_start(g: Seq<Seq<u8>>) -> bool {
    &&& exists|r: int, c: int| #[trigger] at(g, r, c) == 94
    &&& forall|r: int, c: int, r2: int, c2: int|
        #[trigger] at(g, r, c) == 94 && #[trigger] at(g, r2, c2) == 94 ==> r == r2 && c == c2
}

/// Where the guard starts.
pub open spec fn start(g: Seq<Seq<u8>>) -> Guard {
    let (r, c) = choose|r: int, c: int| #[trigger] at(g, r, c) == 94;
    start_of(c, r)
}

/// The moves after which the guard, with no extra obstruction, leaves.
pub open spec fn exit_moves(s: Seq<u8>) -> nat {
    let g = lines_of(s);
    exit_from(g, -1, -1, start(g), 0, limit(s.len()))->Some_0
}

pub open spec fn visited_term(s: Seq<u8>) -> spec_fn(int, int) -> int {
    let g = lines_of(s);
    |r: int, c: int| one_if(visits(g, start(g), exit_moves(s), c, r))
}

/// A cell on the guard's path, other than the start, where one more
/// obstruction keeps the guard from ever leaving.
pub open spec fn trap_term(s: Seq<u8>) -> spec_fn(int, int) -> int {
    let g = lines_of(s);
    |r: int, c: int|
        one_if(
            visits(g, start(g), exit_moves(s), c, r) && !(c == start(g).x && r == start(g).y) && exit_from(
                g,
                c,
                r,
                start(g),
                0,
                limit(s.len()),
            ) is None,
        )
}

/// One start, and a guard who leaves the map.
pub open spec fn well_formed(s: Seq<u8>) -> bool {
    let g = lines_of(s);
    &&& one_start(g)
    &&& exit_from(g, -1, -1, start(g), 0, limit(s.len())) is Some
    &&& s.len() < 0x1_0000_0000_0000
}

proof fn lemma_exit_from(g: Seq<Seq<u8>>, ox: int, oy: int, s: Guard, k: nat, n: nat)
    ensures
        exit_from(g, ox, oy, s, k, n) matches Some(e) ==> k <= e < n && leaving(g, state_at(g, ox, oy, s, e))
            && forall|j: nat| k <= j < e ==> !leaving(g, #[trigger] state_at(g, ox, oy, s, j)),
    decreases n - k,
{
    if k < n && !leaving(g, state_at(g, ox, oy, s, k)) {
        lemma_exit_from(g, ox, oy, s, k + 1, n);
    }
}

fn find_start(g: &Vec<Vec<u8>>) -> (p: (usize, usize))
    requires
        one_start(grid_of(g@)),
    ensures
        start(grid_of(g@)) == start_of(p.1 as int, p.0 as int),
{
    let ghost sg = grid_of(g@);
    let mut r: usize = 0;
    while r < g.len()
        invariant
            sg == grid_of(g@),
            one_start(sg),
            r <= g@.len(),
            forall|i: int, j: int| 0 <= i < r ==> #[trigger] at(sg, i, j) != 94,
        decreases g@.len() - r,
    {
        let mut c: usize = 0;
        while c < g[r].len()
            invariant
                sg == grid_of(g@),
                one_start(sg),
                r < g@.len(),
                c <= g@[r as int]@.len(),
                forall|i: int, j: int| 0 <= i < r ==> #[trigger] at(sg, i, j) != 94,
                forall|j: int| 0 <= j < c ==> #[trigger] at(sg, r as int, j) != 94,
            decreases g@[r as int]@.len() - c,
        {
            if g[r][c] == 94 {
                proof {
                    assert(at(sg, r as int, c as int) == 94);
                    let (r2, c2) = choose|r2: int, c2: int| #[trigger] at(sg, r2, c2) == 94;
                    assert(r2 == r && c2 == c);
                }
                return (r, c);
            }
            c = c + 1;
        }
        proof {
            assert forall|i: int, j: int| 0 <= i < r + 1 implies #[trigger] at(sg, i, j) != 94 by {
                if i == r && !(0 <= j < c) {
                    assert(at(sg, i, j) == -1);
                }
            }
        }
        r = r + 1;
    }
    proof {
        let (r2, c2) = choose|r2: int, c2: int| #[trigger] at(sg, r2, c2) == 94;
        assert(at(sg, r2, c2) == 94);
        if !(0 <= r2 < r) {
            assert(at(sg, r2, c2) == -1);
        }
    }
    (0, 0)
}

/// The guard after one move, with an extra obstruction at `(ox, oy)`.
fn step_exec(g: &Vec<Vec<u8>>, ox: i128, oy: i128, x: i128, y: i128, d: u8) -> (r: (i128, i128, u8))
    requires
        d < 4,
        -0x1_0000_0000_0000_0000 <= x <= 0x1_0000_0000_0000_0000,
        -0x1_0000_0000_0000_0000 <= y <= 0x1_0000_0000_0000_0000,
    ensures
        step(grid_of(g@), ox as int, oy as int, Guard { x: x as int, y: y as int, d: d as int }) == (Guard {
            x: r.0 as int,
            y: r.1 as int,
            d: r.2 as int,
        }),
        r.2 < 4,
        -0x1_0000_0000_0000_0001 <= r.0 <= 0x1_0000_0000_0000_0001,
        -0x1_0000_0000_0000_0001 <= r.1 <= 0x1_0000_0000_0000_0001,
{
    let nx = if d == 1 { x + 1 } else if d == 3 { x - 1 } else { x };
    let ny = if d == 0 { y - 1 } else if d == 2 { y + 1 } else { y };
    if at_signed(g, ny, nx) == 35 || (nx == ox && ny == oy) {
        (x, y, (d + 1) % 4)
    } else {
        (nx, ny, d)
    }
}

/// The moves after which the guard, starting at `(sx, sy)` with an extra
/// obstruction at `(ox, oy)`, is about to leave, if that comes before `n`.
fn exit_steps(g: &Vec<Vec<u8>>, ox: i128, oy: i128, sx: usize, sy: usize, n: u64) -> (r: Option<u64>)
    requires
        at(grid_of(g@), sy as int, sx as int) >= 0,
    ensures
        match r {
            Some(e) => exit_from(grid_of(g@), ox as int, oy as int, start_of(sx as int, sy as int), 0, n as nat)
                == Some(e as nat),
            None => exit_from(grid_of(g@), ox as int, oy as int, start_of(sx as int, sy as int), 0, n as nat) is None,
        },
{
    let ghost sg = grid_of(g@);
    let ghost s0 = start_of(sx as int, sy as int);
    let mut x = sx as i128;
    let mut y = sy as i128;
    let mut d: u8 = 0;
    let mut k: u64 = 0;
    while k < n
        invariant
            sg == grid_of(g@),
            s0 == start_of(sx as int, sy as int),
            state_at(sg, ox as int, oy as int, s0, k as nat) == (Guard { x: x as int, y: y as int, d: d as int }),
            at(sg, y as int, x as int) >= 0,
            0 <= x <= usize::MAX,
            0 <= y <= usize::MAX,
            d < 4,
            k <= n,
            exit_from(sg, ox as int, oy as int, s0, 0, n as nat) == exit_from(sg, ox as int, oy as int, s0, k as nat, n as nat),
        decreases n - k,
    {
        let nx = if d == 1 { x + 1 } else if d == 3 { x - 1 } else { x };
        let ny = if d == 0 { y - 1 } else if d == 2 { y + 1 } else { y };
        if at_signed(g, ny, nx) < 0 {
            return Some(k);
        }
        let (x2, y2, d2) = step_exec(g, ox, oy, x, y, d);
        x = x2;
        y = y2;
        d = d2;
        k = k + 1;
    }
    None
}

/// Whether the guard, starting at `(sx, sy)` with no extra obstruction,
/// stands on `(x, y)` within its first `e` moves.
fn visited(g: &Vec<Vec<u8>>, sx: usize, sy: usize, e: u64, x: usize, y: usize) -> (b: bool)
    requires
        at(grid_of(g@), sy as int, sx as int) >= 0,
        forall|j: nat| j < e ==> !leaving(grid_of(g@), #[trigger] state_at(grid_of(g@), -1, -1, start_of(sx as int, sy as int), j)),
    ensures
        b == visits(grid_of(g@), start_of(sx as int, sy as int), e as nat, x as int, y as int),
{
    let ghost sg = grid_of(g@);
    let ghost s0 = start_of(sx as int, sy as int);
    let mut px = sx as i128;
    let mut py = sy as i128;
    let mut d: u8 = 0;
    let mut k: u64 = 0;
    loop
        invariant
            sg == grid_of(g@),
            s0 == start_of(sx as int, sy as int),
            forall|j: nat| j < e ==> !leaving(sg, #[trigger] state_at(sg, -1, -1, s0, j)),
            state_at(sg, -1, -1, s0, k as nat) == (Guard { x: px as int, y: py as int, d: d as int }),
            at(sg, py as int, px as int) >= 0,
            0 <= px <= usize::MAX,
            0 <= py <= usize::MAX,
            d < 4,
            k <= e,
            forall|j: nat| j < k ==> !(#[trigger] state_at(sg, -1, -1, s0, j).x == x && state_at(sg, -1, -1, s0, j).y == y),
        decreases e - k,
    {
        if px == x as i128 && py == y as i128 {
            assert(state_at(sg, -1, -1, s0, k as nat).x == x && state_at(sg, -1, -1, s0, k as nat).y == y);
            return true;
        }
        if k == e {
            proof {
                assert forall|j: nat| j <= e implies !(#[trigger] state_at(sg, -1, -1, s0, j).x == x && state_at(sg, -1, -1, s0, j).y == y) by {
                    if j < k {
                    }
                }
            }
            return false;
        }
        assert(!leaving(sg, state_at(sg, -1, -1, s0, k as nat)));
        let nx = if d == 1 { px + 1 } else if d == 3 { px - 1 } else { px };
        let ny = if d == 0 { py - 1 } else if d == 2 { py + 1 } else { py };
        let _ = at_signed(g, ny, nx);
        let (x2, y2, d2) = step_exec(g, -1, -1, px, py, d);
        px = x2;
        py = y2;
        d = d2;
        k = k + 1;
    }
}

pub open spec fn term(s: Seq<u8>, traps: bool) -> spec_fn(int, int) -> int {
    if traps { trap_term(s) } else { visited_term(s) }
}

pub open spec fn answer(s: Seq<u8>, traps: bool) -> int {
    cell_sum(lines_of(s), term(s, traps))
}

fn total(input: &str, traps: bool) -> (n: u64)
    requires
        well_formed(input.spec_bytes()),
        answer(input.spec_bytes(), traps) <= u64::MAX,
    ensures
        n == answer(input.spec_bytes(), traps),
{
    let ghost sb = input.spec_bytes();
    let b = input.as_bytes();
    let g = grid(b);
    let ghost sg = grid_of(g@);
    let (sy, sx) = find_start(&g);
    proof {
        let (r, c) = choose|r: int, c: int| #[trigger] at(sg, r, c) == 94;
        assert(at(sg, r, c) == 94);
    }
    let limit_n: u64 = 4 * (b.len() as u64) + 4;
    let e = match exit_steps(&g, -1, -1, sx, sy, limit_n) {
        Some(e) => e,
        None => {
            return 0;
        },
    };
    proof {
        lemma_exit_from(sg, -1, -1, start(sg), 0, limit(sb.len()));
    }
    let ghost t = term(sb, traps);
    let ghost rows = Seq::new(sg.len(), |i: int| row_sum(sg, t, i));
    proof {
        assert forall|i: int, j: int| #[trigger] t(i, j) >= 0 by {}
        assert forall|i: int| 0 <= i < rows.len() implies #[trigger] rows[i] >= 0 by {
            lemma_cell_sum_bounds(sg, t, i, 0);
        }
    }
    let mut total: u64 = 0;
    let mut r: usize = 0;
    while r < g.len()
        invariant
            sb == input.spec_bytes(),
            sg == grid_of(g@),
            sg == lines_of(sb),
            well_formed(sb),
            start(sg) == start_of(sx as int, sy as int),
            at(sg, sy as int, sx as int) >= 0,
            limit_n == limit(sb.len()),
            exit_moves(sb) == e,
            forall|j: nat| j < e ==> !leaving(sg, #[trigger] state_at(sg, -1, -1, start(sg), j)),
            t == term(sb, traps),
            rows == Seq::new(sg.len(), |i: int| row_sum(sg, t, i)),
            forall|i: int| 0 <= i < rows.len() ==> #[trigger] rows[i] >= 0,
            forall|i: int, j: int| #[trigger] t(i, j) >= 0,
            sum(rows) <= u64::MAX,
            r <= g@.len(),
            total == sum(rows.take(r as int)),
        decreases g@.len() - r,
    {
        let ghost cells = Seq::new(sg[r as int].len(), |j: int| t(r as int, j));
        let mut row: u64 = 0;
        let mut c: usize = 0;
        proof {
            lemma_sum_prefix_le(rows, r + 1);
            assert(rows.take(r + 1).drop_last() == rows.take(r as int));
        }
        while c < g[r].len()
            invariant
                sb == input.spec_bytes(),
                sg == grid_of(g@),
                sg == lines_of(sb),
                start(sg) == start_of(sx as int, sy as int),
                at(sg, sy as int, sx as int) >= 0,
                limit_n == limit(sb.len()),
                exit_moves(sb) == e,
                forall|j: nat| j < e ==> !leaving(sg, #[trigger] state_at(sg, -1, -1, start(sg), j)),
                r < g@.len(),
                t == term(sb, traps),
                cells == Seq::new(sg[r as int].len(), |j: int| t(r as int, j)),
                forall|i: int, j: int| #[trigger] t(i, j) >= 0,
                total + sum(cells) <= u64::MAX,
                c <= g@[r as int]@.len(),
                row == sum(cells.take(c as int)),
            decreases g@[r as int]@.len() - c,
        {
            proof {
                assert forall|j: int| 0 <= j < cells.len() implies #[trigger] cells[j] >= 0 by {}
                lemma_sum_prefix_le(cells, c + 1);
                assert(cells.take(c + 1).drop_last() == cells.take(c as int));
            }
            let on_path = visited(&g, sx, sy, e, c, r);
            let v: u64 = if !traps {
                if on_path { 1 } else { 0 }
            } else if on_path && !(c == sx && r == sy) {
                match exit_steps(&g, c as i128, r as i128, sx, sy, limit_n) {
                    Some(_) => 0,
                    None => 1,
                }
            } else {
                0
            };
            proof {
                assert(cells[c as int] == v);
            }
            row = row + v;
            c = c + 1;
        }
        proof {
            assert(cells.take(c as int) == cells);
        }
        total = total + row;
        r = r + 1;
    }
    assert(rows.take(r as int) == rows);
    total
}

/// The number of distinct positions the guard visits before leaving.
pub fn part1(input: &str) -> (r: u64)
    requires
        well_formed(input.spec_bytes()),
        answer(input.spec_bytes(), false) <= u64::MAX,
    ensures
        r == answer(input.spec_bytes(), false),
{
    total(input, false)
}

/// The number of positions on the guard's path, other than the start, where
/// one more obstruction would keep the guard on the map for ever.
pub fn part2(input: &str) -> (r: u64)
    requires
        well_formed(input.spec_bytes()),
        answer(input.spec_bytes(), true) <= u64::MAX,
    ensures
        r == answer(input.spec_bytes(), true),
{
    total(input, true)
}

} // verus!
