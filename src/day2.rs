//! Reports of levels: which are safe, alone or with one level left out.
use vstd::prelude::*;
use vstd::string::StringSliceAdditionalSpecFns;
use crate::day3::digits_value;
use crate::text::{is_digit, lines, lines_of};

verus! {

pub open spec fn rising(s: Seq<int>) -> bool {
    forall|k: int| 1 <= k < s.len() ==> s[k - 1] <= #[trigger] s[k]
}

pub open spec fn falling(s: Seq<int>) -> bool {
    forall|k: int| 1 <= k < s.len() ==> s[k - 1] >= #[trigger] s[k]
}

/// Adjacent levels differ by at least one and at most three.
pub open spec fn gentle(s: Seq<int>) -> bool {
    forall|k: int|
        1 <= k < s.len() ==> {
            let d = #[trigger] s[k] - s[k - 1];
            (1 <= d <= 3 || -3 <= d <= -1)
        }
}

/// A report is safe when its levels all rise or all fall, gently.
pub open spec fn safe(s: Seq<int>) -> bool {
    (rising(s) || falling(s)) && gentle(s)
}

/// `s` without position `j`.
pub open spec fn without(s: Seq<int>, j: int) -> Seq<int> {
    Seq::new((s.len() - 1) as nat, |k: int| if k < j { s[k] } else { s[k + 1] })
}

/// Safe, or safe once one level is left out.
pub open spec fn tolerable(s: Seq<int>) -> bool {
    safe(s) || exists|j: int| 0 <= j < s.len() && #[trigger] safe(without(s, j))
}

/// ASCII white space: space, tab, line feed, vertical tab, form feed,
/// carriage return.
pub open spec fn is_space(c: u8) -> bool {
    c == 32u8 || (9u8 <= c <= 13u8)
}

/// Words finished so far and the word being read, after reading `s`.
pub open spec fn field_state(s: Seq<u8>) -> (Seq<Seq<u8>>, Seq<u8>)
    decreases s.len(),
{
    if s.len() == 0 {
        (seq![], seq![])
    } else {
        let (done, cur) = field_state(s.drop_last());
        if is_space(s.last()) {
            if cur.len() > 0 { (done.push(cur), seq![]) } else { (done, cur) }
        } else {
            (done, cur.push(s.last()))
        }
    }
}

/// The words of `s`: the runs of bytes between white space.
pub open spec fn fields_of(s: Seq<u8>) -> Seq<Seq<u8>> {
    let (done, cur) = field_state(s);
    if cur.len() > 0 { done.push(cur) } else { done }
}

/// The value of word `w` read as an `i32`: an optional sign, then at least
/// one digit and nothing else, within the range of `i32`; none otherwise.
pub open spec fn word_value(w: Seq<u8>) -> Option<int> {
    let body = word_body(w);
    let neg = w.len() > 0 && w[0] == 45u8;
    if body.len() == 0 || !all_digits(body) {
        None
    } else {
        let v = digits_value(body, 0, body.len());
        if neg {
            if v <= 0x8000_0000 { Some(-v) } else { None }
        } else {
            if v < 0x8000_0000 { Some(v as int) } else { None }
        }
    }
}

/// `w` without its leading sign, if it has one.
pub open spec fn word_body(w: Seq<u8>) -> Seq<u8> {
    if w.len() > 0 && (w[0] == 45u8 || w[0] == 43u8) { w.drop_first() } else { w }
}

pub open spec fn all_digits(s: Seq<u8>) -> bool {
    forall|k: int| #![trigger s[k]] 0 <= k < s.len() ==> is_digit(s[k])
}

/// The values of the words of `ws` that read as `i32`, in order.
pub open spec fn values_of(ws: Seq<Seq<u8>>) -> Seq<int>
    decreases ws.len(),
{
    if ws.len() == 0 {
        seq![]
    } else {
        match word_value(ws.last()) {
            Some(v) => values_of(ws.drop_last()).push(v),
            None => values_of(ws.drop_last()),
        }
    }
}

/// The levels of a report line.
pub open spec fn levels(line: Seq<u8>) -> Seq<int> {
    values_of(fields_of(line))
}

pub open spec fn report_counts(line: Seq<u8>, tolerant: bool) -> bool {
    if tolerant { tolerable(levels(line)) } else { safe(levels(line)) }
}

/// How many of the lines `ls` hold reports that count.
pub open spec fn count_reports(ls: Seq<Seq<u8>>, tolerant: bool) -> nat
    decreases ls.len(),
{
    if ls.len() == 0 {
        0
    } else {
        count_reports(ls.drop_last(), tolerant) + if report_counts(ls.last(), tolerant) { 1nat } else { 0nat }
    }
}

/// The words of `b`.
fn fields(b: &[u8]) -> (r: Vec<Vec<u8>>)
    ensures
        r@.len() == fields_of(b@).len(),
        forall|i: int| 0 <= i < r@.len() ==> #[trigger] r@[i]@ == fields_of(b@)[i],
{
    let mut done: Vec<Vec<u8>> = Vec::new();
    let mut cur: Vec<u8> = Vec::new();
    let mut i: usize = 0;
    while i < b.len()
        invariant
            i <= b@.len(),
            done@.len() == field_state(b@.take(i as int)).0.len(),
            forall|k: int| 0 <= k < done@.len() ==> #[trigger] done@[k]@ == field_state(b@.take(i as int)).0[k],
            cur@ == field_state(b@.take(i as int)).1,
        decreases b@.len() - i,
    {
        assert(b@.take(i as int + 1).drop_last() == b@.take(i as int));
        let c = b[i];
        if c == 32u8 || (9u8 <= c && c <= 13u8) {
            if cur.len() > 0 {
                let piece = cur;
                cur = Vec::new();
                done.push(piece);
            }
        } else {
            cur.push(c);
        }
        i = i + 1;
    }
    assert(b@.take(i as int) == b@);
    if cur.len() > 0 {
        done.push(cur);
    }
    done
}

/// The value of word `w` read as an `i32`, if it reads as one.
fn word_value_exec(w: &Vec<u8>) -> (r: Option<i64>)
    ensures
        match word_value(w@) {
            Some(v) => r == Some(v as i64) && -0x8000_0000 <= v < 0x8000_0000,
            None => r is None,
        },
{
    let ghost signed = w@.len() > 0 && (w@[0] == 45u8 || w@[0] == 43u8);
    let ghost body = word_body(w@);
    let start: usize = if w.len() > 0 && (w[0] == 45u8 || w[0] == 43u8) { 1 } else { 0 };
    let neg = w.len() > 0 && w[0] == 45u8;
    assert(body.len() == w@.len() - start);
    assert(forall|j: int| 0 <= j < body.len() ==> #[trigger] body[j] == w@[j + start]);
    if start >= w.len() {
        return None;
    }
    let mut acc: i64 = 0;
    let mut big = false;
    let mut k: usize = start;
    while k < w.len()
        invariant
            body == word_body(w@),
            start == (if signed { 1int } else { 0int }),
            body.len() == w@.len() - start,
            forall|j: int| 0 <= j < body.len() ==> #[trigger] body[j] == w@[j + start],
            start < w@.len(),
            start <= k <= w@.len(),
            forall|j: int| #![trigger body[j]] 0 <= j < k - start ==> is_digit(body[j]),
            big ==> digits_value(body, 0, (k - start) as nat) > 0x8000_0000,
            !big ==> acc == digits_value(body, 0, (k - start) as nat) && acc <= 0x8000_0000,
        decreases w@.len() - k,
    {
        let c = w[k];
        assert(body[k - start] == c);
        if !(48 <= c && c <= 57) {
            assert(!is_digit(body[k - start]));
            assert(k - start < body.len());
            assert(!all_digits(body));
            return None;
        }
        let d = (c - 48) as i64;
        assert(digits_value(body, 0, (k - start + 1) as nat) == digits_value(body, 0, (k - start) as nat) * 10 + d);
        if !big {
            let next = acc * 10 + d;
            if next > 0x8000_0000 {
                big = true;
            } else {
                acc = next;
            }
        }
        k = k + 1;
    }
    assert(body.len() == k - start);
    if big {
        return None;
    }
    if neg {
        if acc <= 0x8000_0000 { Some(-acc) } else { None }
    } else {
        if acc < 0x8000_0000 { Some(acc) } else { None }
    }
}

/// The levels of a report line.
fn read_levels(line: &Vec<u8>) -> (r: Vec<i64>)
    ensures
        r@.map_values(|x: i64| x as int) == levels(line@),
        forall|k: int| 0 <= k < r@.len() ==> -0x8000_0000 <= #[trigger] r@[k] < 0x8000_0000,
{
    let ws = fields(line.as_slice());
    let ghost sw = fields_of(line@);
    let mut r: Vec<i64> = Vec::new();
    let mut i: usize = 0;
    while i < ws.len()
        invariant
            sw == fields_of(line@),
            ws@.len() == sw.len(),
            forall|k: int| 0 <= k < ws@.len() ==> #[trigger] ws@[k]@ == sw[k],
            i <= ws@.len(),
            r@.map_values(|x: i64| x as int) == values_of(sw.take(i as int)),
            forall|k: int| 0 <= k < r@.len() ==> -0x8000_0000 <= #[trigger] r@[k] < 0x8000_0000,
        decreases ws@.len() - i,
    {
        assert(sw.take(i as int + 1).drop_last() == sw.take(i as int));
        assert(sw.take(i as int + 1).last() == sw[i as int]);
        let ghost before = r@;
        match word_value_exec(&ws[i]) {
            Some(v) => {
                r.push(v);
                assert(r@.map_values(|x: i64| x as int) =~= before.map_values(|x: i64| x as int).push(v as int));
            },
            None => {},
        }
        i = i + 1;
    }
    assert(sw.take(i as int) == sw);
    r
}

/// Whether the levels `v` make a safe report.
fn is_safe(v: &Vec<i64>) -> (r: bool)
    requires
        forall|k: int| 0 <= k < v@.len() ==> -0x8000_0000 <= #[trigger] v@[k] < 0x8000_0000,
    ensures
        r == safe(v@.map_values(|x: i64| x as int)),
{
    let ghost s = v@.map_values(|x: i64| x as int);
    let mut up = true;
    let mut down = true;
    let mut near = true;
    let mut k: usize = 1;
    while k < v.len()
        invariant
            s == v@.map_values(|x: i64| x as int),
            forall|k: int| 0 <= k < v@.len() ==> -0x8000_0000 <= #[trigger] v@[k] < 0x8000_0000,
            1 <= k,
            k <= v@.len() || v@.len() == 0,
            up == (forall|j: int| 1 <= j < k && j < s.len() ==> s[j - 1] <= #[trigger] s[j]),
            down == (forall|j: int| 1 <= j < k && j < s.len() ==> s[j - 1] >= #[trigger] s[j]),
            near == (forall|j: int|
                1 <= j < k && j < s.len() ==> {
                    let d = #[trigger] s[j] - s[j - 1];
                    (1 <= d <= 3 || -3 <= d <= -1)
                }),
        decreases v@.len() - k,
    {
        let a = v[k - 1];
        let b = v[k];
        assert(s[k - 1] == a as int && s[k as int] == b as int);
        if b < a {
            up = false;
        }
        if b > a {
            down = false;
        }
        let d = if b > a { b - a } else { a - b };
        if d < 1 || d > 3 {
            near = false;
        }
        k = k + 1;
    }
    (up || down) && near
}

/// `v` without position `j`.
fn leave_out(v: &Vec<i64>, j: usize) -> (r: Vec<i64>)
    requires
        j < v@.len(),
    ensures
        r@.map_values(|x: i64| x as int) == without(v@.map_values(|x: i64| x as int), j as int),
        r@.len() == v@.len() - 1,
        forall|i: int| 0 <= i < r@.len() ==> #[trigger] r@[i] == if i < j { v@[i] } else { v@[i + 1] },
{
    let mut r: Vec<i64> = Vec::new();
    let mut k: usize = 0;
    while k < v.len()
        invariant
            j < v@.len(),
            k <= v@.len(),
            r@.len() == if k <= j { k as int } else { k - 1 },
            forall|i: int| 0 <= i < r@.len() ==> #[trigger] r@[i] == if i < j { v@[i] } else { v@[i + 1] },
        decreases v@.len() - k,
    {
        if k != j {
            r.push(v[k]);
        }
        k = k + 1;
    }
    assert(r@.map_values(|x: i64| x as int) =~= without(v@.map_values(|x: i64| x as int), j as int));
    r
}

/// Whether the levels `v` make a safe report once at most one is left out.
fn is_tolerable(v: &Vec<i64>) -> (r: bool)
    requires
        forall|k: int| 0 <= k < v@.len() ==> -0x8000_0000 <= #[trigger] v@[k] < 0x8000_0000,
    ensures
        r == tolerable(v@.map_values(|x: i64| x as int)),
{
    let ghost s = v@.map_values(|x: i64| x as int);
    if is_safe(v) {
        return true;
    }
    let mut j: usize = 0;
    while j < v.len()
        invariant
            forall|k: int| 0 <= k < v@.len() ==> -0x8000_0000 <= #[trigger] v@[k] < 0x8000_0000,
            s == v@.map_values(|x: i64| x as int),
            j <= v@.len(),
            forall|i: int| 0 <= i < j ==> !#[trigger] safe(without(s, i)),
        decreases v@.len() - j,
    {
        let w = leave_out(v, j);
        if is_safe(&w) {
            return true;
        }
        j = j + 1;
    }
    false
}

fn count(input: &str, tolerant: bool) -> (r: u64)
    ensures
        r == count_reports(lines_of(input.spec_bytes()), tolerant),
{
    let ls = lines(input.as_bytes());
    let ghost sl = lines_of(input.spec_bytes());
    let mut total: u64 = 0;
    let mut i: usize = 0;
    while i < ls.len()
        invariant
            sl == lines_of(input.spec_bytes()),
            ls@.len() == sl.len(),
            forall|k: int| 0 <= k < ls@.len() ==> #[trigger] ls@[k]@ == sl[k],
            i <= ls@.len(),
            total == count_reports(sl.take(i as int), tolerant),
            total <= i,
        decreases ls@.len() - i,
    {
        assert(sl.take(i as int + 1).drop_last() == sl.take(i as int));
        let v = read_levels(&ls[i]);
        let ok = if tolerant { is_tolerable(&v) } else { is_safe(&v) };
        if ok {
            total = total + 1;
        }
        i = i + 1;
    }
    assert(sl.take(i as int) == sl);
    total
}

/// How many reports are safe.
pub fn part1(input: &str) -> (r: u64)
    ensures
        r == count_reports(lines_of(input.spec_bytes()), false),
{
    count(input, false)
}

/// How many reports are safe once at most one level is left out.
pub fn part2(input: &str) -> (r: u64)
    ensures
        r == count_reports(lines_of(input.spec_bytes()), true),
{
    count(input, true)
}

} // verus!
