//! A disk map: files and free space, compacted block by block or file by
//! file, and the checksum of the result.
use vstd::prelude::*;
use vstd::string::StringSliceAdditionalSpecFns;
use crate::text::{is_digit, lemma_sum_prefix_le, sum};

verus! {

/// The blocks that the digits `s` describe: each digit in turn a file
/// (its index halved is its id) and a run of free blocks (-1).
pub open spec fn layout(s: Seq<u8>) -> Seq<int>
    decreases s.len(),
{
    if s.len() == 0 {
        seq![]
    } else {
        let k = s.len() - 1;
        let v: int = if k % 2 == 0 { k / 2 } else { -1 };
        layout(s.drop_last()) + Seq::new((s.last() - 48) as nat, |i: int| v)
    }
}

/// Moves blocks one at a time from the end of `b[i..j]` to its leftmost
/// free block, until no free block is left of a file block.
pub open spec fn compact(b: Seq<int>, i: int, j: int) -> Seq<int>
    decreases j - i,
{
    if i >= j || j > b.len() || i < 0 {
        b
    } else if b[i] != -1 {
        compact(b, i + 1, j)
    } else if b[j - 1] == -1 {
        compact(b, i, j - 1)
    } else {
        compact(b.update(i, b[j - 1]).update(j - 1, -1), i + 1, j - 1)
    }
}

/// The sum over the blocks of position times file id.
pub open spec fn checksum(b: Seq<int>) -> int {
    sum(Seq::new(b.len(), |p: int| if b[p] >= 0 { p * b[p] } else { 0 }))
}

pub open spec fn well_formed(s: Seq<u8>) -> bool {
    &&& forall|i: int| 0 <= i < s.len() ==> is_digit(#[trigger] s[i])
    &&& s.len() < 0x1_0000_0000
}

proof fn lemma_layout_len(s: Seq<u8>)
    requires
        forall|i: int| 0 <= i < s.len() ==> is_digit(#[trigger] s[i]),
    ensures
        layout(s).len() <= 9 * s.len(),
        forall|p: int| 0 <= p < layout(s).len() ==> -1 <= #[trigger] layout(s)[p] < s.len(),
    decreases s.len(),
{
    if s.len() > 0 {
        lemma_layout_len(s.drop_last());
        assert(is_digit(s[s.len() - 1]));
        let k = s.len() - 1;
        let v: int = if k % 2 == 0 { k / 2 } else { -1 };
        let tail = Seq::new((s.last() - 48) as nat, |i: int| v);
        assert forall|p: int| 0 <= p < layout(s).len() implies -1 <= #[trigger] layout(s)[p] < s.len() by {
            if p >= layout(s.drop_last()).len() {
                assert(layout(s)[p] == tail[p - layout(s.drop_last()).len()]);
            } else {
                assert(layout(s)[p] == layout(s.drop_last())[p]);
            }
        }
    }
}

/// The blocks of the disk map.
fn expand(b: &[u8]) -> (r: Vec<i64>)
    requires
        well_formed(b@),
    ensures
        r@.map_values(|v: i64| v as int) == layout(b@),
{
    let mut r: Vec<i64> = Vec::new();
    let mut k: usize = 0;
    while k < b.len()
        invariant
            well_formed(b@),
            k <= b@.len(),
            r@.map_values(|v: i64| v as int) == layout(b@.take(k as int)),
        decreases b@.len() - k,
    {
        assert(b@.take(k as int + 1).drop_last() == b@.take(k as int));
        assert(is_digit(b@[k as int]));
        let v: i64 = if k % 2 == 0 { (k / 2) as i64 } else { -1 };
        let n = b[k] - 48;
        let ghost before = r@;
        let mut m: u8 = 0;
        while m < n
            invariant
                m <= n,
                r@.len() == before.len() + m,
                forall|p: int| 0 <= p < before.len() ==> r@[p] == before[p],
                forall|p: int| before.len() <= p < r@.len() ==> r@[p] == v,
            decreases n - m,
        {
            r.push(v);
            m = m + 1;
        }
        proof {
            let kk = k as int;
            let vv: int = if kk % 2 == 0 { kk / 2 } else { -1 };
            assert(vv == v);
            assert(r@.map_values(|v: i64| v as int) =~= layout(b@.take(kk)) + Seq::new(n as nat, |i: int| vv));
        }
        k = k + 1;
    }
    assert(b@.take(k as int) == b@);
    r
}

pub open spec fn ints(v: Seq<i64>) -> Seq<int> {
    v.map_values(|x: i64| x as int)
}

/// Every block is free (-1) or a file id below `n`.
pub open spec fn blocks_ok(b: Seq<int>, n: int) -> bool {
    forall|p: int| 0 <= p < b.len() ==> -1 <= #[trigger] b[p] < n
}

proof fn lemma_compact_ok(b: Seq<int>, i: int, j: int, n: int)
    requires
        blocks_ok(b, n),
    ensures
        blocks_ok(compact(b, i, j), n),
        compact(b, i, j).len() == b.len(),
    decreases j - i,
{
    if !(i >= j || j > b.len() || i < 0) {
        if b[i] != -1 {
            lemma_compact_ok(b, i + 1, j, n);
        } else if b[j - 1] == -1 {
            lemma_compact_ok(b, i, j - 1, n);
        } else {
            let b2 = b.update(i, b[j - 1]).update(j - 1, -1);
            assert(blocks_ok(b2, n));
            lemma_compact_ok(b2, i + 1, j - 1, n);
        }
    }
}

/// The checksum of `b`, whose blocks are free or ids below 2^32.
fn checksum_exec(b: &Vec<i64>) -> (r: u64)
    requires
        blocks_ok(ints(b@), 0x1_0000_0000),
        checksum(ints(b@)) <= u64::MAX,
    ensures
        r == checksum(ints(b@)),
{
    let ghost sb = ints(b@);
    let ghost ts = Seq::new(sb.len(), |p: int| if sb[p] >= 0 { p * sb[p] } else { 0 });
    proof {
        assert forall|k: int| 0 <= k < ts.len() implies #[trigger] ts[k] >= 0 by {
            if sb[k] >= 0 {
                assert(k * sb[k] >= 0) by (nonlinear_arith)
                    requires k >= 0, sb[k] >= 0;
            }
        }
    }
    let mut t: u64 = 0;
    let mut p: usize = 0;
    while p < b.len()
        invariant
            sb == ints(b@),
            ts == Seq::new(sb.len(), |p: int| if sb[p] >= 0 { p * sb[p] } else { 0 }),
            blocks_ok(sb, 0x1_0000_0000),
            forall|k: int| 0 <= k < ts.len() ==> #[trigger] ts[k] >= 0,
            sum(ts) <= u64::MAX,
            p <= b@.len(),
            t == sum(ts.take(p as int)),
        decreases b@.len() - p,
    {
        proof {
            lemma_sum_prefix_le(ts, p + 1);
            lemma_sum_prefix_le(ts, p as int);
            assert(ts.take(p + 1).drop_last() == ts.take(p as int));
        }
        let v = b[p];
        if v >= 0 {
            let term = (p as u128) * (v as u128);
            assert(term == ts[p as int]);
            t = t + term as u64;
        }
        p = p + 1;
    }
    assert(ts.take(p as int) == ts);
    t
}

/// The checksum after moving file blocks one at a time from the end of the
/// disk to its leftmost free block.
pub fn part1(input: &str) -> (r: u64)
    requires
        well_formed(input.spec_bytes()),
        checksum(compact(layout(input.spec_bytes()), 0, layout(input.spec_bytes()).len() as int)) <= u64::MAX,
    ensures
        r == checksum(compact(layout(input.spec_bytes()), 0, layout(input.spec_bytes()).len() as int)),
{
    let ghost s = input.spec_bytes();
    let mut b = expand(input.as_bytes());
    let ghost b0 = ints(b@);
    let n = b.len();
    proof {
        lemma_layout_len(s);
        assert(blocks_ok(b0, 0x1_0000_0000));
    }
    let mut i: usize = 0;
    let mut j: usize = n;
    while i < j
        invariant
            b0 == layout(s),
            n == b0.len(),
            b@.len() == n,
            blocks_ok(b0, 0x1_0000_0000),
            blocks_ok(ints(b@), 0x1_0000_0000),
            i <= j <= n,
            compact(b0, 0, n as int) == compact(ints(b@), i as int, j as int),
        decreases j - i,
    {
        if b[i] != -1 {
            i = i + 1;
        } else if b[j - 1] == -1 {
            j = j - 1;
        } else {
            let v = b[j - 1];
            let ghost before = ints(b@);
            b.set(i, v);
            b.set(j - 1, -1);
            assert(ints(b@) =~= before.update(i as int, before[j - 1]).update(j - 1, -1));
            i = i + 1;
            j = j - 1;
        }
    }
    proof {
        lemma_compact_ok(b0, 0, n as int, 0x1_0000_0000);
    }
    checksum_exec(&b)
}

/// Where the first block of file `id` is, from position `p` on; the length
/// of `b` when there is none.
pub open spec fn file_start(b: Seq<int>, id: int, p: int) -> int
    decreases b.len() - p,
{
    if p < 0 || p >= b.len() {
        b.len() as int
    } else if b[p] == id {
        p
    } else {
        file_start(b, id, p + 1)
    }
}

/// How many blocks of file `id` follow one another from position `p`.
pub open spec fn run_len(b: Seq<int>, id: int, p: int) -> nat
    decreases b.len() - p,
{
    if p < 0 || p >= b.len() || b[p] != id {
        0
    } else {
        1 + run_len(b, id, p + 1)
    }
}

/// The `l` blocks from position `p` on are free.
pub open spec fn free_at(b: Seq<int>, p: int, l: nat) -> bool {
    0 <= p && p + l <= b.len() && forall|q: int| p <= q < p + l ==> #[trigger] b[q] == -1
}

/// The leftmost position from `k` on where `l` free blocks end by `limit`.
pub open spec fn first_fit(b: Seq<int>, l: nat, k: int, limit: int) -> Option<int>
    decreases limit - k,
{
    if k >= limit {
        None
    } else if k + l <= limit && free_at(b, k, l) {
        Some(k)
    } else {
        first_fit(b, l, k + 1, limit)
    }
}

/// File `id` moved whole to the leftmost run of free blocks before it that
/// is long enough, if there is one.
pub open spec fn move_file(b: Seq<int>, id: int) -> Seq<int> {
    let s = file_start(b, id, 0);
    let l = run_len(b, id, s);
    match first_fit(b, l, 0, s) {
        Some(p) => Seq::new(b.len(), |q: int| if p <= q < p + l { id } else if s <= q < s + l { -1 } else { b[q] }),
        None => b,
    }
}

/// Files `id`, `id - 1`, ..., 0 moved in turn.
pub open spec fn move_all(b: Seq<int>, id: int) -> Seq<int>
    decreases id + 1,
{
    if id < 0 {
        b
    } else {
        move_all(move_file(b, id), id - 1)
    }
}

proof fn lemma_move_all_ok(b: Seq<int>, id: int, n: int)
    requires
        blocks_ok(b, n),
        id < n,
    ensures
        blocks_ok(move_all(b, id), n),
        move_all(b, id).len() == b.len(),
    decreases id + 1,
{
    if id >= 0 {
        let m = move_file(b, id);
        assert(blocks_ok(m, n));
        lemma_move_all_ok(m, id - 1, n);
    }
}

proof fn lemma_first_fit(b: Seq<int>, l: nat, k: int, limit: int)
    ensures
        first_fit(b, l, k, limit) matches Some(p) ==> k <= p && p + l <= limit && free_at(b, p, l),
    decreases limit - k,
{
    if k < limit && !(k + l <= limit && free_at(b, k, l)) {
        lemma_first_fit(b, l, k + 1, limit);
    }
}

fn file_start_exec(b: &Vec<i64>, id: i64) -> (r: usize)
    ensures
        r == file_start(ints(b@), id as int, 0),
{
    let ghost sb = ints(b@);
    let mut p: usize = 0;
    while p < b.len()
        invariant
            sb == ints(b@),
            p <= b@.len(),
            file_start(sb, id as int, 0) == file_start(sb, id as int, p as int),
        decreases b@.len() - p,
    {
        if b[p] == id {
            return p;
        }
        p = p + 1;
    }
    p
}

fn run_len_exec(b: &Vec<i64>, id: i64, s: usize) -> (r: usize)
    ensures
        r == run_len(ints(b@), id as int, s as int),
        s + r <= b@.len() || r == 0,
{
    let ghost sb = ints(b@);
    let mut q: usize = s;
    while q < b.len() && b[q] == id
        invariant
            sb == ints(b@),
            s <= q,
            q <= b@.len() || q == s,
            run_len(sb, id as int, s as int) == (q - s) + run_len(sb, id as int, q as int),
        decreases b@.len() - q,
    {
        q = q + 1;
    }
    q - s
}

fn first_fit_exec(b: &Vec<i64>, l: usize, limit: usize) -> (r: Option<usize>)
    requires
        limit <= b@.len(),
    ensures
        match r {
            Some(p) => first_fit(ints(b@), l as nat, 0, limit as int) == Some(p as int),
            None => first_fit(ints(b@), l as nat, 0, limit as int) is None,
        },
{
    let ghost sb = ints(b@);
    let mut k: usize = 0;
    while k < limit
        invariant
            sb == ints(b@),
            limit <= b@.len(),
            k <= limit,
            first_fit(sb, l as nat, 0, limit as int) == first_fit(sb, l as nat, k as int, limit as int),
        decreases limit - k,
    {
        if l <= limit - k {
            let mut q: usize = 0;
            while q < l && b[k + q] == -1
                invariant
                    sb == ints(b@),
                    k + l <= limit <= b@.len(),
                    q <= l,
                    forall|m: int| k <= m < k + q ==> #[trigger] sb[m] == -1,
                decreases l - q,
            {
                q = q + 1;
            }
            if q == l {
                return Some(k);
            }
            assert(sb[k + q] != -1);
        }
        k = k + 1;
    }
    None
}

/// The checksum after moving each file whole, from the highest id down, to
/// the leftmost run of free blocks before it that is long enough.
pub fn part2(input: &str) -> (r: u64)
    requires
        well_formed(input.spec_bytes()),
        checksum(move_all(layout(input.spec_bytes()), (input.spec_bytes().len() as int - 1) / 2)) <= u64::MAX,
    ensures
        r == checksum(move_all(layout(input.spec_bytes()), (input.spec_bytes().len() as int - 1) / 2)),
{
    let ghost s = input.spec_bytes();
    let mut b = expand(input.as_bytes());
    let ghost b0 = ints(b@);
    let ghost top = (s.len() as int - 1) / 2;
    proof {
        lemma_layout_len(s);
    }
    let bytes = input.as_bytes();
    let nbytes = bytes.len();
    assert(nbytes == s.len());
    assert(s.len() < 0x1_0000_0000);
    let files = nbytes / 2 + nbytes % 2;
    let mut next: usize = files;
    while next > 0
        invariant
            b0 == layout(s),
            top == (s.len() as int - 1) / 2,
            files == (s.len() + 1) / 2,
            s.len() < 0x1_0000_0000,
            next <= files,
            b@.len() == b0.len(),
            move_all(b0, top) == move_all(ints(b@), next - 1),
        decreases next,
    {
        let id = (next - 1) as i64;
        let ghost cur = ints(b@);
        let st = file_start_exec(&b, id);
        let l = run_len_exec(&b, id, st);
        if st < b.len() {
            match first_fit_exec(&b, l, st) {
                Some(p) => {
                    proof {
                        lemma_first_fit(cur, l as nat, 0, st as int);
                    }
                    let blen = b.len();
                    let mut q: usize = 0;
                    while q < l
                        invariant
                            blen == b@.len(),
                            cur.len() == b@.len(),
                            st == file_start(cur, id as int, 0),
                            l == run_len(cur, id as int, st as int),
                            st + l <= b@.len(),
                            first_fit(cur, l as nat, 0, st as int) == Some(p as int),
                            p + l <= st,
                            q <= l,
                            forall|m: int| 0 <= m < b@.len() ==> #[trigger] ints(b@)[m] == (if p <= m < p + q {
                                id as int
                            } else if st <= m < st + q {
                                -1
                            } else {
                                cur[m]
                            }),
                        decreases l - q,
                    {
                        let ghost before = ints(b@);
                        b.set(p + q, id);
                        b.set(st + q, -1);
                        assert(ints(b@) =~= before.update(p + q, id as int).update(st + q, -1));
                        q = q + 1;
                    }
                    assert(ints(b@) =~= move_file(cur, id as int));
                },
                None => {
                    assert(ints(b@) =~= move_file(cur, id as int));
                },
            }
        } else {
            assert(ints(b@) =~= move_file(cur, id as int));
        }
        next = next - 1;
    }
    proof {
        assert(blocks_ok(b0, 0x1_0000_0000));
        lemma_move_all_ok(b0, top, 0x1_0000_0000);
    }
    checksum_exec(&b)
}

} // verus!
