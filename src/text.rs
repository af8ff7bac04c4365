//! Reading puzzle text as bytes: lines, and the decimal numbers in a line.
use vstd::prelude::*;

verus! {

pub open spec fn is_digit(c: u8) -> bool {
    48 <= c <= 57
}

/// Lines seen so far and the unfinished line, after reading `s` from the left.
pub open spec fn line_state(s: Seq<u8>) -> (Seq<Seq<u8>>, Seq<u8>)
    decreases s.len(),
{
    if s.len() == 0 {
        (seq![], seq![])
    } else {
        let (done, cur) = line_state(s.drop_last());
        if s.last() == 10u8 {
            (done.push(cur), seq![])
        } else {
            (done, cur.push(s.last()))
        }
    }
}

/// The lines of `s`: the pieces between newlines, and a last piece that does
/// not end in a newline when it is not empty.
pub open spec fn lines_of(s: Seq<u8>) -> Seq<Seq<u8>> {
    let (done, cur) = line_state(s);
    if cur.len() > 0 {
        done.push(cur)
    } else {
        done
    }
}

/// Splits `b` into its lines.
pub fn lines(b: &[u8]) -> (r: Vec<Vec<u8>>)
    ensures
        r@.len() == lines_of(b@).len(),
        forall|i: int| 0 <= i < r@.len() ==> #[trigger] r@[i]@ == lines_of(b@)[i],
{
    let mut done: Vec<Vec<u8>> = Vec::new();
    let mut cur: Vec<u8> = Vec::new();
    let mut i: usize = 0;
    while i < b.len()
        invariant
            i <= b@.len(),
            done@.len() == line_state(b@.take(i as int)).0.len(),
            forall|k: int| 0 <= k < done@.len() ==> #[trigger] done@[k]@ == line_state(b@.take(i as int)).0[k],
            cur@ == line_state(b@.take(i as int)).1,
        decreases b@.len() - i,
    {
        assert(b@.take(i as int + 1).drop_last() == b@.take(i as int));
        if b[i] == 10u8 {
            let piece = cur;
            cur = Vec::new();
            done.push(piece);
        } else {
            cur.push(b[i]);
        }
        i = i + 1;
    }
    assert(b@.take(i as int) == b@);
    if cur.len() > 0 {
        done.push(cur);
    }
    done
}

/// Numbers finished so far and the digit run being read, after reading `s`
/// from the left.
pub open spec fn number_state(s: Seq<u8>) -> (Seq<nat>, Option<nat>)
    decreases s.len(),
{
    if s.len() == 0 {
        (seq![], None)
    } else {
        let (done, cur) = number_state(s.drop_last());
        let c = s.last();
        if is_digit(c) {
            let d = (c - 48) as nat;
            match cur {
                Some(v) => (done, Some(v * 10 + d)),
                None => (done, Some(d)),
            }
        } else {
            match cur {
                Some(v) => (done.push(v), None),
                None => (done, None),
            }
        }
    }
}

/// The values of the maximal runs of decimal digits in `s`, in order.
pub open spec fn numbers_of(s: Seq<u8>) -> Seq<nat> {
    let (done, cur) = number_state(s);
    match cur {
        Some(v) => done.push(v),
        None => done,
    }
}

/// Every digit run of `s`, read from its first digit, stays within `u64`.
pub open spec fn fits_u64(s: Seq<u8>) -> bool {
    forall|i: int|
        0 <= i <= s.len() ==> match #[trigger] number_state(s.take(i)).1 {
            Some(v) => v <= u64::MAX,
            None => true,
        }
}

/// The decimal numbers in `b`, in order.
pub fn numbers(b: &[u8]) -> (r: Vec<u64>)
    requires
        fits_u64(b@),
    ensures
        r@.len() == numbers_of(b@).len(),
        forall|i: int| 0 <= i < r@.len() ==> r@[i] as nat == #[trigger] numbers_of(b@)[i],
{
    let mut done: Vec<u64> = Vec::new();
    let mut cur: Option<u64> = None;
    let mut i: usize = 0;
    while i < b.len()
        invariant
            i <= b@.len(),
            fits_u64(b@),
            done@.len() == number_state(b@.take(i as int)).0.len(),
            forall|k: int| 0 <= k < done@.len() ==> done@[k] as nat == #[trigger] number_state(b@.take(i as int)).0[k],
            match number_state(b@.take(i as int)).1 {
                Some(v) => cur == Some(v as u64) && v <= u64::MAX,
                None => cur is None,
            },
        decreases b@.len() - i,
    {
        assert(b@.take(i as int + 1).drop_last() == b@.take(i as int));
        let c = b[i];
        let ghost next = number_state(b@.take(i as int + 1)).1;
        assert(match next { Some(v) => v <= u64::MAX, None => true });
        if 48 <= c && c <= 57 {
            let d = (c - 48) as u64;
            match cur {
                Some(v) => {
                    assert(v as nat * 10 + d as nat <= u64::MAX);
                    cur = Some(v * 10 + d);
                },
                None => {
                    cur = Some(d);
                },
            }
        } else {
            match cur {
                Some(v) => {
                    done.push(v);
                    cur = None;
                },
                None => {},
            }
        }
        i = i + 1;
    }
    assert(b@.take(i as int) == b@);
    match cur {
        Some(v) => {
            done.push(v);
        },
        None => {},
    }
    done
}

/// The sum of `s`.
pub open spec fn sum(s: Seq<int>) -> int
    decreases s.len(),
{
    if s.len() == 0 {
        0
    } else {
        sum(s.drop_last()) + s.last()
    }
}

/// A sum of terms that are not negative is at least the sum of any prefix.
pub proof fn lemma_sum_prefix_le(s: Seq<int>, i: int)
    requires
        0 <= i <= s.len(),
        forall|k: int| 0 <= k < s.len() ==> #[trigger] s[k] >= 0,
    ensures
        0 <= sum(s.take(i)) <= sum(s),
    decreases s.len(),
{
    if i < s.len() {
        assert(s.drop_last().take(i) == s.take(i));
        lemma_sum_prefix_le(s.drop_last(), i);
    } else {
        assert(s.take(i) == s);
        if s.len() > 0 {
            lemma_sum_prefix_le(s.drop_last(), i - 1);
            assert(s.drop_last().take(i - 1) == s.drop_last());
        }
    }
}

/// Whether `s` holds the byte `c`.
pub fn contains_byte(s: &Vec<u8>, c: u8) -> (r: bool)
    ensures
        r == s@.contains(c),
{
    let mut i: usize = 0;
    while i < s.len()
        invariant
            i <= s@.len(),
            forall|k: int| 0 <= k < i ==> s@[k] != c,
        decreases s@.len() - i,
    {
        if s[i] == c {
            assert(s@[i as int] == c);
            return true;
        }
        i = i + 1;
    }
    false
}

/// A term that is not negative is at most a sum of terms that are not
/// negative.
pub proof fn lemma_term_le_sum(s: Seq<int>, k: int)
    requires
        0 <= k < s.len(),
        forall|j: int| 0 <= j < s.len() ==> #[trigger] s[j] >= 0,
    ensures
        s[k] <= sum(s),
{
    lemma_sum_prefix_le(s, k + 1);
    lemma_sum_prefix_le(s, k);
    assert(s.take(k + 1).drop_last() == s.take(k));
}

/// The rows of `g`, as byte sequences.
pub open spec fn grid_of(g: Seq<Vec<u8>>) -> Seq<Seq<u8>> {
    Seq::new(g.len(), |r: int| g[r]@)
}

/// The lines of `b`, as rows of a grid.
pub fn grid(b: &[u8]) -> (r: Vec<Vec<u8>>)
    ensures
        grid_of(r@) == lines_of(b@),
{
    let r = lines(b);
    assert(grid_of(r@) =~= lines_of(b@));
    r
}

/// The sum over the cells of `g` of `term`, row by row.
pub open spec fn cell_sum(g: Seq<Seq<u8>>, term: spec_fn(int, int) -> int) -> int {
    sum(Seq::new(g.len(), |r: int| row_sum(g, term, r)))
}

pub open spec fn row_sum(g: Seq<Seq<u8>>, term: spec_fn(int, int) -> int, r: int) -> int {
    sum(Seq::new(g[r].len(), |c: int| term(r, c)))
}

/// Where every term is not negative, every row sum and every term is at
/// most the whole sum.
pub proof fn lemma_cell_sum_bounds(g: Seq<Seq<u8>>, term: spec_fn(int, int) -> int, r: int, c: int)
    requires
        forall|i: int, j: int| #[trigger] term(i, j) >= 0,
        0 <= r < g.len(),
    ensures
        0 <= row_sum(g, term, r) <= cell_sum(g, term),
        0 <= c < g[r].len() ==> term(r, c) <= row_sum(g, term, r),
{
    let rows = Seq::new(g.len(), |i: int| row_sum(g, term, i));
    let cells = Seq::new(g[r].len(), |j: int| term(r, j));
    lemma_sum_prefix_le(cells, cells.len() as int);
    assert(cells.take(cells.len() as int) == cells);
    assert forall|i: int| 0 <= i < rows.len() implies #[trigger] rows[i] >= 0 by {
        let ci = Seq::new(g[i].len(), |j: int| term(i, j));
        lemma_sum_prefix_le(ci, ci.len() as int);
        assert(ci.take(ci.len() as int) == ci);
    }
    lemma_term_le_sum(rows, r);
    if 0 <= c < g[r].len() {
        lemma_term_le_sum(cells, c);
    }
}

pub open spec fn signed(neg: bool, mag: nat) -> int {
    if neg { -mag } else { mag as int }
}

/// Signed numbers finished so far, the sign and size of the digit run being
/// read, and whether the last byte read was a minus sign.
pub open spec fn int_state(s: Seq<u8>) -> (Seq<int>, Option<(bool, nat)>, bool)
    decreases s.len(),
{
    if s.len() == 0 {
        (seq![], None, false)
    } else {
        let (done, cur, minus) = int_state(s.drop_last());
        let c = s.last();
        if is_digit(c) {
            let d = (c - 48) as nat;
            match cur {
                Some((neg, m)) => (done, Some((neg, m * 10 + d)), false),
                None => (done, Some((minus, d)), false),
            }
        } else {
            match cur {
                Some((neg, m)) => (done.push(signed(neg, m)), None, c == 45u8),
                None => (done, None, c == 45u8),
            }
        }
    }
}

/// The values of the maximal runs of decimal digits in `s`, negative where a
/// minus sign comes right before the run.
pub open spec fn ints_of(s: Seq<u8>) -> Seq<int> {
    let (done, cur, _) = int_state(s);
    match cur {
        Some((neg, m)) => done.push(signed(neg, m)),
        None => done,
    }
}

/// Every digit run of `s`, read from its first digit, stays below 2^40.
pub open spec fn small_ints(s: Seq<u8>) -> bool {
    forall|i: int|
        0 <= i <= s.len() ==> match #[trigger] int_state(s.take(i)).1 {
            Some((_, m)) => m < 0x100_0000_0000,
            None => true,
        }
}

/// The signed decimal numbers in `b`, in order.
pub fn ints(b: &[u8]) -> (r: Vec<i64>)
    requires
        small_ints(b@),
    ensures
        r@.len() == ints_of(b@).len(),
        forall|i: int| 0 <= i < r@.len() ==> r@[i] as int == #[trigger] ints_of(b@)[i],
        forall|i: int| 0 <= i < r@.len() ==> -0x100_0000_0000 < #[trigger] r@[i] < 0x100_0000_0000,
{
    let mut done: Vec<i64> = Vec::new();
    let mut cur: Option<(bool, i64)> = None;
    let mut minus = false;
    let mut i: usize = 0;
    while i < b.len()
        invariant
            i <= b@.len(),
            small_ints(b@),
            done@.len() == int_state(b@.take(i as int)).0.len(),
            forall|k: int| 0 <= k < done@.len() ==> done@[k] as int == #[trigger] int_state(b@.take(i as int)).0[k],
            forall|k: int| 0 <= k < done@.len() ==> -0x100_0000_0000 < #[trigger] done@[k] < 0x100_0000_0000,
            minus == int_state(b@.take(i as int)).2,
            match int_state(b@.take(i as int)).1 {
                Some((neg, m)) => cur == Some((neg, m as i64)) && m < 0x100_0000_0000,
                None => cur is None,
            },
        decreases b@.len() - i,
    {
        assert(b@.take(i as int + 1).drop_last() == b@.take(i as int));
        let c = b[i];
        let ghost next = int_state(b@.take(i as int + 1)).1;
        assert(match next { Some((_, m)) => m < 0x100_0000_0000, None => true });
        if 48 <= c && c <= 57 {
            let d = (c - 48) as i64;
            match cur {
                Some((neg, m)) => {
                    cur = Some((neg, m * 10 + d));
                },
                None => {
                    cur = Some((minus, d));
                },
            }
            minus = false;
        } else {
            match cur {
                Some((neg, m)) => {
                    done.push(if neg { -m } else { m });
                    cur = None;
                },
                None => {},
            }
            minus = c == 45u8;
        }
        i = i + 1;
    }
    assert(b@.take(i as int) == b@);
    match cur {
        Some((neg, m)) => {
            done.push(if neg { -m } else { m });
        },
        None => {},
    }
    done
}

} // verus!
