//! Bytes falling onto a square memory grid: the fewest steps from one corner
//! to the other, and the first byte that cuts the way off.
use vstd::prelude::*;
use vstd::string::StringSliceAdditionalSpecFns;
use crate::text::{fits_u64, lines, lines_of, numbers, numbers_of};

verus! {

/// Where byte `i` falls: the first two numbers of line `i`.
pub open spec fn byte_at(s: Seq<u8>, i: int) -> (int, int) {
    let ns = numbers_of(lines_of(s)[i]);
    (ns[0] as int, ns[1] as int)
}

/// One of the first `count` bytes has fallen on `(x, y)`.
pub open spec fn fallen(s: Seq<u8>, count: int, x: int, y: int) -> bool {
    exists|i: int| 0 <= i < count && i < lines_of(s).len() && #[trigger] byte_at(s, i) == (x, y)
}

/// `(x, y)` is on the grid and free; the two corners always are.
pub open spec fn passable(s: Seq<u8>, count: int, dim: int, x: int, y: int) -> bool {
    0 <= x < dim && 0 <= y < dim && ((x == 0 && y == 0) || (x == dim - 1 && y == dim - 1) || !fallen(
        s,
        count,
        x,
        y,
    ))
}

/// `(x, y)` can be reached from the corner `(0, 0)` in at most `k` steps.
pub open spec fn within(s: Seq<u8>, count: int, dim: int, k: nat, x: int, y: int) -> bool
    decreases k,
{
    if k == 0 {
        x == 0 && y == 0
    } else {
        within(s, count, dim, (k - 1) as nat, x, y) || (passable(s, count, dim, x, y) && (within(
            s,
            count,
            dim,
            (k - 1) as nat,
            x - 1,
            y,
        ) || within(s, count, dim, (k - 1) as nat, x + 1, y) || within(s, count, dim, (k - 1) as nat, x, y - 1)
            || within(s, count, dim, (k - 1) as nat, x, y + 1)))
    }
}

/// The fewest steps, from `k` on and at most one per cell of the grid, that
/// reach the far corner.
pub open spec fn steps_from(s: Seq<u8>, count: int, dim: int, k: nat) -> Option<nat>
    decreases dim * dim + 1 - k,
{
    if k > dim * dim {
        None
    } else if within(s, count, dim, k, dim - 1, dim - 1) {
        Some(k)
    } else {
        steps_from(s, count, dim, k + 1)
    }
}

/// The fewest steps from `(0, 0)` to `(dim - 1, dim - 1)` once `count`
/// bytes have fallen; none when the way is cut off.
pub open spec fn shortest(s: Seq<u8>, count: int, dim: int) -> Option<nat> {
    steps_from(s, count, dim, 0)
}

/// Each of the first `count` lines gives a byte on the grid.
pub open spec fn well_formed(s: Seq<u8>, count: int, dim: int) -> bool {
    &&& 1 <= dim < 0x8000
    &&& forall|i: int|
        0 <= i < count && i < lines_of(s).len() ==> fits_u64(#[trigger] lines_of(s)[i]) && numbers_of(
            lines_of(s)[i],
        ).len() >= 2 && numbers_of(lines_of(s)[i])[0] < dim && numbers_of(lines_of(s)[i])[1] < dim
}

/// Where the bytes have fallen, `x * dim + y` for `(x, y)`.
pub open spec fn index(dim: int, x: int, y: int) -> int {
    x * dim + y
}

proof fn lemma_index(dim: int, x: int, y: int)
    requires
        0 <= x < dim,
        0 <= y < dim,
    ensures
        0 <= index(dim, x, y) < dim * dim,
        forall|x2: int, y2: int|
            0 <= x2 < dim && 0 <= y2 < dim && #[trigger] index(dim, x2, y2) == index(dim, x, y) ==> x2 == x && y2 == y,
{
    assert(0 <= x * dim + y < dim * dim) by (nonlinear_arith)
        requires 0 <= x < dim, 0 <= y < dim;
    assert forall|x2: int, y2: int|
        0 <= x2 < dim && 0 <= y2 < dim && #[trigger] index(dim, x2, y2) == index(dim, x, y) implies x2 == x && y2 == y by {
        assert(x2 == x && y2 == y) by (nonlinear_arith)
            requires 0 <= x < dim, 0 <= y < dim, 0 <= x2 < dim, 0 <= y2 < dim, x2 * dim + y2 == x * dim + y;
    }
}

/// A grid of `dim` by `dim` cells with the first `count` bytes fallen.
pub struct Grid {
    pub dim: usize,
    pub count: usize,
    pub blocked: Vec<bool>,
    pub text: Ghost<Seq<u8>>,
}

impl Grid {
    pub open spec fn wf(&self) -> bool {
        &&& 1 <= self.dim < 0x8000
        &&& self.blocked@.len() == self.dim * self.dim
        &&& forall|x: int, y: int|
            0 <= x < self.dim && 0 <= y < self.dim ==> #[trigger] self.blocked@[index(self.dim as int, x, y)]
                == fallen(self.text@, self.count as int, x, y)
    }

    /// The grid once the first `count` bytes of `input` have fallen.
    pub fn from(input: &str, count: usize, dim: usize) -> (g: Grid)
        requires
            well_formed(input.spec_bytes(), count as int, dim as int),
        ensures
            g.wf(),
            g.text@ == input.spec_bytes(),
            g.count == count,
            g.dim == dim,
    {
        let ghost s = input.spec_bytes();
        let ls = lines(input.as_bytes());
        let ghost sl = lines_of(s);
        assert(dim * dim < 0x4000_0000) by (nonlinear_arith)
            requires dim < 0x8000;
        let n = dim * dim;
        let mut blocked: Vec<bool> = Vec::new();
        let mut k: usize = 0;
        while k < n
            invariant
                k <= n,
                blocked@.len() == k,
                forall|j: int| 0 <= j < k ==> !(#[trigger] blocked@[j]),
            decreases n - k,
        {
            blocked.push(false);
            k = k + 1;
        }
        proof {
            assert forall|x: int, y: int| 0 <= x < dim && 0 <= y < dim implies #[trigger] blocked@[index(dim as int, x, y)] == fallen(
                s,
                0,
                x,
                y,
            ) by {
                lemma_index(dim as int, x, y);
            }
        }
        let mut i: usize = 0;
        while i < count && i < ls.len()
            invariant
                s == input.spec_bytes(),
                sl == lines_of(s),
                well_formed(s, count as int, dim as int),
                n == dim * dim,
                ls@.len() == sl.len(),
                forall|j: int| 0 <= j < ls@.len() ==> #[trigger] ls@[j]@ == sl[j],
                i <= count,
                blocked@.len() == n,
                forall|x: int, y: int|
                    0 <= x < dim && 0 <= y < dim ==> #[trigger] blocked@[index(dim as int, x, y)] == fallen(
                        s,
                        i as int,
                        x,
                        y,
                    ),
            decreases count - i,
        {
            assert(fits_u64(sl[i as int]));
            let ns = numbers(ls[i].as_slice());
            let x = ns[0] as usize;
            let y = ns[1] as usize;
            assert(byte_at(s, i as int) == (x as int, y as int));
            proof {
                lemma_index(dim as int, x as int, y as int);
            }
            let ghost before = blocked@;
            blocked.set(x * dim + y, true);
            proof {
                assert forall|x2: int, y2: int| 0 <= x2 < dim && 0 <= y2 < dim implies #[trigger] blocked@[index(
                    dim as int,
                    x2,
                    y2,
                )] == fallen(s, i + 1, x2, y2) by {
                    lemma_index(dim as int, x2, y2);
                    if x2 == x && y2 == y {
                        assert(byte_at(s, i as int) == (x2, y2));
                    } else {
                        assert(blocked@[index(dim as int, x2, y2)] == before[index(dim as int, x2, y2)]);
                        if fallen(s, i + 1, x2, y2) {
                            let j = choose|j: int| 0 <= j < i + 1 && j < lines_of(s).len() && #[trigger] byte_at(s, j) == (x2, y2);
                            assert(j != i);
                        }
                    }
                }
            }
            i = i + 1;
        }
        proof {
            assert forall|x: int, y: int| 0 <= x < dim && 0 <= y < dim implies #[trigger] blocked@[index(dim as int, x, y)] == fallen(
                s,
                count as int,
                x,
                y,
            ) by {
                if i < count {
                    if fallen(s, count as int, x, y) {
                        let j = choose|j: int| 0 <= j < count && j < lines_of(s).len() && #[trigger] byte_at(s, j) == (x, y);
                        assert(fallen(s, i as int, x, y));
                    }
                }
            }
        }
        Grid { dim, count, blocked, text: Ghost(s) }
    }
}

proof fn lemma_outside(s: Seq<u8>, count: int, dim: int, k: nat, x: int, y: int)
    requires
        dim >= 1,
        !(0 <= x < dim && 0 <= y < dim),
    ensures
        !within(s, count, dim, k, x, y),
    decreases k,
{
    if k > 0 {
        lemma_outside(s, count, dim, (k - 1) as nat, x, y);
    }
}

/// Once a round of steps reaches no new cell, no later round does.
proof fn lemma_fixpoint(s: Seq<u8>, count: int, dim: int, k: nat, m: nat)
    requires
        dim >= 1,
        k <= m,
        forall|x: int, y: int|
            0 <= x < dim && 0 <= y < dim ==> #[trigger] within(s, count, dim, k + 1, x, y) == within(s, count, dim, k, x, y),
    ensures
        forall|x: int, y: int| 0 <= x < dim && 0 <= y < dim ==> #[trigger] within(s, count, dim, m, x, y) == within(s, count, dim, k, x, y),
    decreases m - k,
{
    if m > k {
        lemma_fixpoint(s, count, dim, k, (m - 1) as nat);
        assert forall|x: int, y: int| 0 <= x < dim && 0 <= y < dim implies #[trigger] within(s, count, dim, m, x, y) == within(s, count, dim, k, x, y) by {
            let mm = (m - 1) as nat;
            if !(0 <= x - 1 < dim) { lemma_outside(s, count, dim, mm, x - 1, y); lemma_outside(s, count, dim, k, x - 1, y); }
            if !(0 <= x + 1 < dim) { lemma_outside(s, count, dim, mm, x + 1, y); lemma_outside(s, count, dim, k, x + 1, y); }
            if !(0 <= y - 1 < dim) { lemma_outside(s, count, dim, mm, x, y - 1); lemma_outside(s, count, dim, k, x, y - 1); }
            if !(0 <= y + 1 < dim) { lemma_outside(s, count, dim, mm, x, y + 1); lemma_outside(s, count, dim, k, x, y + 1); }
            if 0 <= x - 1 < dim { assert(within(s, count, dim, mm, x - 1, y) == within(s, count, dim, k, x - 1, y)); }
            if 0 <= x + 1 < dim { assert(within(s, count, dim, mm, x + 1, y) == within(s, count, dim, k, x + 1, y)); }
            if 0 <= y - 1 < dim { assert(within(s, count, dim, mm, x, y - 1) == within(s, count, dim, k, x, y - 1)); }
            if 0 <= y + 1 < dim { assert(within(s, count, dim, mm, x, y + 1) == within(s, count, dim, k, x, y + 1)); }
            assert(within(s, count, dim, mm, x, y) == within(s, count, dim, k, x, y));
            assert(within(s, count, dim, m, x, y) == within(s, count, dim, k + 1, x, y));
        }
    }
}

proof fn lemma_never(s: Seq<u8>, count: int, dim: int, k: nat)
    requires
        dim >= 1,
        forall|m: nat| m >= k ==> !#[trigger] within(s, count, dim, m, dim - 1, dim - 1),
    ensures
        steps_from(s, count, dim, k) is None,
    decreases dim * dim + 1 - k,
{
    if k <= dim * dim {
        lemma_never(s, count, dim, k + 1);
    }
}

impl Grid {
    pub open spec fn is_passable(&self, x: int, y: int) -> bool {
        passable(self.text@, self.count as int, self.dim as int, x, y)
    }

    pub open spec fn reached(&self, k: nat, x: int, y: int) -> bool {
        within(self.text@, self.count as int, self.dim as int, k, x, y)
    }

    fn seen_at(&self, cur: &Vec<bool>, x: i64, y: i64) -> (r: bool)
        requires
            self.wf(),
            cur@.len() == self.dim * self.dim,
            -1 <= x <= self.dim,
            -1 <= y <= self.dim,
        ensures
            0 <= x < self.dim && 0 <= y < self.dim ==> r == cur@[index(self.dim as int, x as int, y as int)],
            !(0 <= x < self.dim && 0 <= y < self.dim) ==> !r,
    {
        if x < 0 || y < 0 || x >= self.dim as i64 || y >= self.dim as i64 {
            return false;
        }
        proof {
            lemma_index(self.dim as int, x as int, y as int);
            assert(x * self.dim + y < 0x4000_0000) by (nonlinear_arith)
                requires 0 <= x < self.dim, 0 <= y < self.dim, self.dim < 0x8000;
        }
        cur[(x as usize) * self.dim + (y as usize)]
    }

    /// The fewest steps from `(0, 0)` to the far corner, moving between
    /// neighbouring free cells; none when the way is cut off.
    pub fn bfs(&self) -> (r: Option<i32>)
        requires
            self.wf(),
        ensures
            match shortest(self.text@, self.count as int, self.dim as int) {
                Some(k) => r == Some(k as i32),
                None => r is None,
            },
    {
        let dim = self.dim;
        let ghost s = self.text@;
        let ghost cnt = self.count as int;
        let ghost d = dim as int;
        assert(dim * dim < 0x4000_0000) by (nonlinear_arith)
            requires dim < 0x8000;
        let n = dim * dim;
        let mut cur: Vec<bool> = Vec::new();
        let mut j: usize = 0;
        while j < n
            invariant
                j <= n,
                cur@.len() == j,
                forall|i: int| 0 < i < j ==> !(#[trigger] cur@[i]),
                j > 0 ==> cur@[0],
            decreases n - j,
        {
            cur.push(j == 0);
            j = j + 1;
        }
        proof {
            assert forall|x: int, y: int| 0 <= x < d && 0 <= y < d implies #[trigger] cur@[index(d, x, y)] == within(s, cnt, d, 0, x, y) by {
                lemma_index(d, x, y);
                lemma_index(d, 0, 0);
            }
        }
        let mut k: usize = 0;
        loop
            invariant
                self.wf(),
                dim == self.dim,
                s == self.text@,
                cnt == self.count as int,
                d == dim as int,
                n == dim * dim,
                n < 0x4000_0000,
                cur@.len() == n,
                k <= n,
                forall|x: int, y: int| 0 <= x < d && 0 <= y < d ==> #[trigger] cur@[index(d, x, y)] == within(s, cnt, d, k as nat, x, y),
                steps_from(s, cnt, d, 0) == steps_from(s, cnt, d, k as nat),
            decreases n - k,
        {
            if self.seen_at(&cur, (dim - 1) as i64, (dim - 1) as i64) {
                return Some(k as i32);
            }
            if k == n {
                return None;
            }
            let mut next: Vec<bool> = Vec::new();
            let mut changed = false;
            let mut x: usize = 0;
            while x < dim
                invariant
                    self.wf(),
                    dim == self.dim,
                    s == self.text@,
                    cnt == self.count as int,
                    d == dim as int,
                    n == dim * dim,
                    cur@.len() == n,
                    x <= dim,
                    next@.len() == x * dim,
                    forall|x2: int, y: int| 0 <= x2 < d && 0 <= y < d ==> #[trigger] cur@[index(d, x2, y)] == within(s, cnt, d, k as nat, x2, y),
                    forall|x2: int, y: int| 0 <= x2 < x && 0 <= y < d ==> #[trigger] next@[index(d, x2, y)] == within(s, cnt, d, (k + 1) as nat, x2, y),
                    !changed ==> forall|x2: int, y: int| 0 <= x2 < x && 0 <= y < d ==> #[trigger] within(s, cnt, d, (k + 1) as nat, x2, y) == within(s, cnt, d, k as nat, x2, y),
                decreases dim - x,
            {
                let mut y: usize = 0;
                while y < dim
                    invariant
                        self.wf(),
                        dim == self.dim,
                        s == self.text@,
                        cnt == self.count as int,
                        d == dim as int,
                        n == dim * dim,
                        cur@.len() == n,
                        x < dim,
                        y <= dim,
                        next@.len() == x * dim + y,
                        forall|x2: int, y2: int| 0 <= x2 < d && 0 <= y2 < d ==> #[trigger] cur@[index(d, x2, y2)] == within(s, cnt, d, k as nat, x2, y2),
                        forall|x2: int, y2: int| 0 <= x2 < x && 0 <= y2 < d ==> #[trigger] next@[index(d, x2, y2)] == within(s, cnt, d, (k + 1) as nat, x2, y2),
                        forall|y2: int| 0 <= y2 < y ==> #[trigger] next@[index(d, x as int, y2)] == within(s, cnt, d, (k + 1) as nat, x as int, y2),
                        !changed ==> forall|x2: int, y2: int| 0 <= x2 < x && 0 <= y2 < d ==> #[trigger] within(s, cnt, d, (k + 1) as nat, x2, y2) == within(s, cnt, d, k as nat, x2, y2),
                        !changed ==> forall|y2: int| 0 <= y2 < y ==> #[trigger] within(s, cnt, d, (k + 1) as nat, x as int, y2) == within(s, cnt, d, k as nat, x as int, y2),
                    decreases dim - y,
                {
                    proof {
                        lemma_index(d, x as int, y as int);
                    }
                    let xi = x as i64;
                    let yi = y as i64;
                    let here = cur[x * dim + y];
                    let free = (x == 0 && y == 0) || (x == dim - 1 && y == dim - 1) || !self.blocked[x * dim + y];
                    let near = self.seen_at(&cur, xi - 1, yi) || self.seen_at(&cur, xi + 1, yi)
                        || self.seen_at(&cur, xi, yi - 1) || self.seen_at(&cur, xi, yi + 1);
                    let v = here || (free && near);
                    proof {
                        let kk = (k + 1) as nat;
                        if !(0 <= x - 1) { lemma_outside(s, cnt, d, k as nat, x - 1, y as int); }
                        if !(x + 1 < d) { lemma_outside(s, cnt, d, k as nat, x + 1, y as int); }
                        if !(0 <= y - 1) { lemma_outside(s, cnt, d, k as nat, x as int, y - 1); }
                        if !(y + 1 < d) { lemma_outside(s, cnt, d, k as nat, x as int, y + 1); }
                        if 0 <= x - 1 { lemma_index(d, x - 1, y as int); }
                        if x + 1 < d { lemma_index(d, x + 1, y as int); }
                        if 0 <= y - 1 { lemma_index(d, x as int, y - 1); }
                        if y + 1 < d { lemma_index(d, x as int, y + 1); }
                        assert(v == within(s, cnt, d, kk, x as int, y as int));
                    }
                    if v != here {
                        changed = true;
                    }
                    let ghost before = next@;
                    next.push(v);
                    proof {
                        assert forall|x2: int, y2: int| 0 <= x2 < x && 0 <= y2 < d implies #[trigger] next@[index(d, x2, y2)] == within(s, cnt, d, (k + 1) as nat, x2, y2) by {
                            lemma_index(d, x2, y2);
                            assert(index(d, x2, y2) < x * dim) by (nonlinear_arith)
                                requires x2 < x, 0 <= y2 < d, d == dim, index(d, x2, y2) == x2 * d + y2;
                            assert(next@[index(d, x2, y2)] == before[index(d, x2, y2)]);
                        }
                        assert forall|y2: int| 0 <= y2 < y + 1 implies #[trigger] next@[index(d, x as int, y2)] == within(s, cnt, d, (k + 1) as nat, x as int, y2) by {
                            if y2 < y {
                                assert(next@[index(d, x as int, y2)] == before[index(d, x as int, y2)]);
                            }
                        }
                    }
                    y = y + 1;
                }
                proof {
                    assert((x + 1) * dim == x * dim + dim) by (nonlinear_arith);
                }
                x = x + 1;
            }
            if !changed {
                proof {
                    assert forall|m: nat| m >= k implies !#[trigger] within(s, cnt, d, m, d - 1, d - 1) by {
                        lemma_fixpoint(s, cnt, d, k as nat, m);
                        lemma_index(d, d - 1, d - 1);
                    }
                    lemma_never(s, cnt, d, k as nat);
                }
                return None;
            }
            proof {
                lemma_index(d, d - 1, d - 1);
                assert(!within(s, cnt, d, k as nat, d - 1, d - 1));
                assert(steps_from(s, cnt, d, k as nat) == steps_from(s, cnt, d, (k + 1) as nat));
                assert(x * dim == n);
            }
            cur = next;
            k = k + 1;
        }
    }
}

/// More fallen bytes never let a cell be reached sooner.
proof fn lemma_more_bytes(s: Seq<u8>, c1: int, c2: int, dim: int, k: nat, x: int, y: int)
    requires
        c1 <= c2,
    ensures
        within(s, c2, dim, k, x, y) ==> within(s, c1, dim, k, x, y),
    decreases k,
{
    if k > 0 {
        let kk = (k - 1) as nat;
        lemma_more_bytes(s, c1, c2, dim, kk, x, y);
        lemma_more_bytes(s, c1, c2, dim, kk, x - 1, y);
        lemma_more_bytes(s, c1, c2, dim, kk, x + 1, y);
        lemma_more_bytes(s, c1, c2, dim, kk, x, y - 1);
        lemma_more_bytes(s, c1, c2, dim, kk, x, y + 1);
        if passable(s, c2, dim, x, y) && fallen(s, c1, x, y) {
            let i = choose|i: int| 0 <= i < c1 && i < lines_of(s).len() && #[trigger] byte_at(s, i) == (x, y);
            assert(fallen(s, c2, x, y));
        }
    }
}

proof fn lemma_steps_from_none(s: Seq<u8>, c: int, dim: int, k: nat)
    ensures
        steps_from(s, c, dim, k) is None <==> forall|m: nat| k <= m <= dim * dim ==> !#[trigger] within(s, c, dim, m, dim - 1, dim - 1),
    decreases dim * dim + 1 - k,
{
    if k <= dim * dim {
        lemma_steps_from_none(s, c, dim, k + 1);
        if steps_from(s, c, dim, k) is None {
            assert forall|m: nat| k <= m <= dim * dim implies !#[trigger] within(s, c, dim, m, dim - 1, dim - 1) by {
                if m > k {
                }
            }
        }
    }
}

/// Once the way is cut off, more bytes keep it cut off.
pub proof fn lemma_cut_stays(s: Seq<u8>, c1: int, c2: int, dim: int)
    requires
        c1 <= c2,
        shortest(s, c1, dim) is None,
    ensures
        shortest(s, c2, dim) is None,
{
    lemma_steps_from_none(s, c1, dim, 0);
    lemma_steps_from_none(s, c2, dim, 0);
    assert forall|m: nat| 0 <= m <= dim * dim implies !#[trigger] within(s, c2, dim, m, dim - 1, dim - 1) by {
        lemma_more_bytes(s, c1, c2, dim, m, dim - 1, dim - 1);
    }
}

/// The first count from `c` on, up to `hi`, after which the way is cut off.
pub open spec fn first_cut(s: Seq<u8>, dim: int, c: int, hi: int) -> int
    decreases hi - c,
{
    if c >= hi {
        hi
    } else if shortest(s, c, dim) is None {
        c
    } else {
        first_cut(s, dim, c + 1, hi)
    }
}

/// The decimal digits of `n`.
pub open spec fn decimal(n: nat) -> Seq<char>
    decreases n,
{
    if n < 10 {
        seq![(n + 48) as char]
    } else {
        decimal(n / 10).push(((n % 10) + 48) as char)
    }
}

fn digit_char(d: u64) -> (r: &'static str)
    requires
        d < 10,
    ensures
        r@ == seq![(d + 48) as char],
{
    proof {
        reveal_strlit("0");
        reveal_strlit("1");
        reveal_strlit("2");
        reveal_strlit("3");
        reveal_strlit("4");
        reveal_strlit("5");
        reveal_strlit("6");
        reveal_strlit("7");
        reveal_strlit("8");
        reveal_strlit("9");
    }
    match d {
        0 => "0",
        1 => "1",
        2 => "2",
        3 => "3",
        4 => "4",
        5 => "5",
        6 => "6",
        7 => "7",
        8 => "8",
        _ => "9",
    }
}

fn push_decimal(out: &mut String, n: u64)
    ensures
        final(out)@ == old(out)@ + decimal(n as nat),
    decreases n,
{
    if n >= 10 {
        push_decimal(out, n / 10);
    }
    let ghost before = out@;
    out.append(digit_char(n % 10));
    proof {
        if n >= 10 {
            assert(out@ =~= before + seq![((n % 10) + 48) as char]);
        }
    }
}

pub open spec fn line_count(s: Seq<u8>) -> int {
    lines_of(s).len() as int
}

impl Grid {
    /// The byte, written `x,y`, that first cuts the way off, searched for
    /// among the counts from `dim - 2` to the last line.
    pub fn find_blocker(input: &str, dim: usize) -> (r: String)
        requires
            3 <= dim,
            well_formed(input.spec_bytes(), line_count(input.spec_bytes()), dim as int),
            dim - 2 <= line_count(input.spec_bytes()) - 1,
            shortest(input.spec_bytes(), line_count(input.spec_bytes()) - 1, dim as int) is None,
        ensures
            ({
                let s = input.spec_bytes();
                let c = first_cut(s, dim as int, dim - 2, line_count(s) - 1);
                r@ == decimal(byte_at(s, c - 1).0 as nat) + seq![','] + decimal(byte_at(s, c - 1).1 as nat)
            }),
    {
        let ghost s = input.spec_bytes();
        let ls = lines(input.as_bytes());
        let ghost hi0 = line_count(s) - 1;
        let mut lo: usize = dim - 2;
        let mut hi: usize = ls.len() - 1;
        while lo < hi
            invariant
                s == input.spec_bytes(),
                3 <= dim < 0x8000,
                well_formed(s, line_count(s), dim as int),
                ls@.len() == line_count(s),
                hi0 == line_count(s) - 1,
                dim - 2 <= lo <= hi <= hi0,
                shortest(s, hi as int, dim as int) is None,
                first_cut(s, dim as int, dim - 2, hi0) == first_cut(s, dim as int, lo as int, hi0),
            decreases hi - lo,
        {
            let mid = lo + (hi - lo) / 2;
            proof {
                assert forall|i: int| 0 <= i < mid && i < lines_of(s).len() implies fits_u64(#[trigger] lines_of(s)[i])
                    && numbers_of(lines_of(s)[i]).len() >= 2 && numbers_of(lines_of(s)[i])[0] < dim && numbers_of(
                    lines_of(s)[i],
                )[1] < dim by {}
            }
            let g = Grid::from(input, mid, dim);
            if g.bfs().is_none() {
                proof {
                    lemma_first_cut_skip(s, dim as int, lo as int, mid as int, hi0);
                }
                hi = mid;
            } else {
                proof {
                    lemma_first_cut_skip(s, dim as int, lo as int, mid as int, hi0);
                    lemma_first_cut_past(s, dim as int, lo as int, mid as int, hi0);
                }
                lo = mid + 1;
            }
        }
        assert(lo >= 1);
        assert(fits_u64(lines_of(s)[lo - 1]));
        let ns = numbers(ls[lo - 1].as_slice());
        let mut out = String::new();
        push_decimal(&mut out, ns[0]);
        let ghost first = out@;
        proof {
            reveal_strlit(",");
        }
        out.append(",");
        push_decimal(&mut out, ns[1]);
        assert(out@ =~= first + seq![','] + decimal(ns@[1] as nat));
        out
    }
}

/// Between `lo` and `mid`, every count keeps the way open when `mid` does
/// and `lo` did so far; else the first cut lies at or before `mid`.
proof fn lemma_first_cut_skip(s: Seq<u8>, dim: int, lo: int, mid: int, hi: int)
    requires
        lo <= mid <= hi,
    ensures
        shortest(s, mid, dim) is None ==> first_cut(s, dim, lo, hi) == first_cut(s, dim, lo, mid),
    decreases mid - lo,
{
    if lo < mid && shortest(s, lo, dim) is Some {
        lemma_first_cut_skip(s, dim, lo + 1, mid, hi);
    }
}

/// When `mid` keeps the way open, so does every count below it, and the
/// first cut lies past `mid`.
proof fn lemma_first_cut_past(s: Seq<u8>, dim: int, lo: int, mid: int, hi: int)
    requires
        lo <= mid < hi,
        shortest(s, mid, dim) is Some,
    ensures
        first_cut(s, dim, lo, hi) == first_cut(s, dim, mid + 1, hi),
    decreases mid - lo,
{
    if lo < mid {
        if shortest(s, lo, dim) is None {
            lemma_cut_stays(s, lo, mid, dim);
        }
        lemma_first_cut_past(s, dim, lo + 1, mid, hi);
    }
}

/// The fewest steps across the 71 by 71 grid once 1024 bytes have fallen.
pub fn part1(input: &str) -> (r: Option<i32>)
    requires
        well_formed(input.spec_bytes(), 1024, 71),
    ensures
        match shortest(input.spec_bytes(), 1024, 71) {
            Some(k) => r == Some(k as i32),
            None => r is None,
        },
{
    Grid::from(input, 1024, 71).bfs()
}

/// The first byte that cuts the way across the 71 by 71 grid off.
pub fn part2(input: &str) -> (r: String)
    requires
        well_formed(input.spec_bytes(), line_count(input.spec_bytes()), 71),
        69 <= line_count(input.spec_bytes()) - 1,
        shortest(input.spec_bytes(), line_count(input.spec_bytes()) - 1, 71) is None,
    ensures
        ({
            let s = input.spec_bytes();
            let c = first_cut(s, 71, 69, line_count(s) - 1);
            r@ == decimal(byte_at(s, c - 1).0 as nat) + seq![','] + decimal(byte_at(s, c - 1).1 as nat)
        }),
{
    Grid::find_blocker(input, 71)
}

} // verus!
