//! Corrupted memory: the products of the well-formed `mul(X,Y)` instructions
//! in it, and of those that `do()` and `don't()` leave enabled.
use vstd::prelude::*;
use vstd::string::StringSliceAdditionalSpecFns;
use crate::text::{is_digit, lemma_sum_prefix_le, sum};

verus! {

/// `s` holds `w` from position `i` on.
pub open spec fn starts_with(s: Seq<u8>, i: int, w: Seq<u8>) -> bool {
    0 <= i && i + w.len() <= s.len() && s.subrange(i, i + w.len()) == w
}

/// `mul(`
pub open spec fn mul_word() -> Seq<u8> {
    seq![109u8, 117u8, 108u8, 40u8]
}

/// `do()`
pub open spec fn do_word() -> Seq<u8> {
    seq![100u8, 111u8, 40u8, 41u8]
}

/// `don't()`
pub open spec fn dont_word() -> Seq<u8> {
    seq![100u8, 111u8, 110u8, 39u8, 116u8, 40u8, 41u8]
}

/// How many digits follow one another from position `j`, counting at most `k`.
pub open spec fn digit_run(s: Seq<u8>, j: int, k: nat) -> nat
    decreases k,
{
    if k == 0 || j < 0 || j >= s.len() || !is_digit(s[j]) {
        0
    } else {
        1 + digit_run(s, j + 1, (k - 1) as nat)
    }
}

/// The number that the `n` digits from position `j` spell.
pub open spec fn digits_value(s: Seq<u8>, j: int, n: nat) -> nat
    decreases n,
{
    if n == 0 {
        0
    } else {
        digits_value(s, j, (n - 1) as nat) * 10 + (s[j + n - 1] - 48) as nat
    }
}

/// The product that a well-formed `mul(X,Y)` at position `i` gives, with `X`
/// and `Y` of one to three digits; zero when none stands there.
pub open spec fn mul_at(s: Seq<u8>, i: int) -> nat {
    if !starts_with(s, i, mul_word()) {
        0
    } else {
        let la = digit_run(s, i + 4, 4);
        let comma = i + 4 + la;
        if la < 1 || la > 3 || comma >= s.len() || s[comma] != 44u8 {
            0
        } else {
            let lb = digit_run(s, comma + 1, 4);
            let close = comma + 1 + lb;
            if lb < 1 || lb > 3 || close >= s.len() || s[close] != 41u8 {
                0
            } else {
                digits_value(s, i + 4, la) * digits_value(s, comma + 1, lb)
            }
        }
    }
}

/// Whether instructions at position `i` are enabled: the last `do()` or
/// `don't()` before it decides, and they start enabled.
pub open spec fn enabled(s: Seq<u8>, i: int) -> bool
    decreases i,
{
    if i <= 0 {
        true
    } else if starts_with(s, i - 1, do_word()) {
        true
    } else if starts_with(s, i - 1, dont_word()) {
        false
    } else {
        enabled(s, i - 1)
    }
}

pub open spec fn products(s: Seq<u8>, conditional: bool) -> Seq<int> {
    Seq::new(s.len(), |i: int| if !conditional || enabled(s, i) { mul_at(s, i) as int } else { 0 })
}

proof fn lemma_digits_value_small(s: Seq<u8>, j: int, n: nat)
    requires
        forall|m: int| 0 <= m < n ==> #[trigger] is_digit(s[j + m]),
        n <= 3,
    ensures
        digits_value(s, j, n) < 1000,
        n <= 2 ==> digits_value(s, j, n) < 100,
        n <= 1 ==> digits_value(s, j, n) < 10,
    decreases n,
{
    if n > 0 {
        assert(is_digit(s[j + (n - 1)]));
        lemma_digits_value_small(s, j, (n - 1) as nat);
    }
}

fn matches_at(b: &[u8], i: usize, w: &Vec<u8>) -> (r: bool)
    ensures
        r == starts_with(b@, i as int, w@),
{
    let n = b.len();
    if i > n || w.len() > n - i {
        return false;
    }
    let mut k: usize = 0;
    while k < w.len()
        invariant
            n == b@.len(),
            i + w@.len() <= b@.len(),
            k <= w@.len(),
            forall|m: int| 0 <= m < k ==> b@[i + m] == w@[m],
        decreases w@.len() - k,
    {
        if b[i + k] != w[k] {
            assert(b@.subrange(i as int, i + w@.len())[k as int] != w@[k as int]);
            return false;
        }
        k = k + 1;
    }
    assert(b@.subrange(i as int, i + w@.len()) =~= w@);
    true
}

fn run_length(b: &[u8], j: usize) -> (r: usize)
    ensures
        r == digit_run(b@, j as int, 4),
        r <= 4,
        forall|m: int| 0 <= m < r ==> j + m < b@.len() && #[trigger] is_digit(b@[j + m]),
{
    let n = b.len();
    if j >= n {
        return 0;
    }
    let mut k: usize = 0;
    while k < 4 && j + k < n && 48 <= b[j + k] && b[j + k] <= 57
        invariant
            n == b@.len(),
            j < n,
            k <= 4,
            j + k <= b@.len(),
            digit_run(b@, j as int, 4) == k + digit_run(b@, j + k, (4 - k) as nat),
            forall|m: int| 0 <= m < k ==> j + m < b@.len() && #[trigger] is_digit(b@[j + m]),
        decreases 4 - k,
    {
        k = k + 1;
    }
    k
}

fn value_of(b: &[u8], j: usize, n: usize) -> (r: u32)
    requires
        n <= 3,
        j + n <= b@.len(),
        forall|m: int| 0 <= m < n ==> #[trigger] is_digit(b@[j + m]),
    ensures
        r == digits_value(b@, j as int, n as nat),
        r < 1000,
{
    let mut v: u32 = 0;
    let mut k: usize = 0;
    while k < n
        invariant
            j + k <= usize::MAX,
            k <= n <= 3,
            j + n <= b@.len(),
            forall|m: int| 0 <= m < n ==> #[trigger] is_digit(b@[j + m]),
            v == digits_value(b@, j as int, k as nat),
        decreases n - k,
    {
        proof {
            lemma_digits_value_small(b@, j as int, k as nat);
            assert(is_digit(b@[j + k]));
        }
        v = v * 10 + (b[j + k] - 48) as u32;
        k = k + 1;
        assert(j + k <= b@.len());
    }
    proof {
        lemma_digits_value_small(b@, j as int, n as nat);
    }
    v
}

/// The product of the `mul(X,Y)` at position `i`, or zero.
fn parse_mul(b: &[u8], i: usize, mul: &Vec<u8>) -> (r: u32)
    requires
        mul@ == mul_word(),
    ensures
        r == mul_at(b@, i as int),
        r < 1000 * 1000,
{
    let n = b.len();
    if !matches_at(b, i, mul) {
        return 0;
    }
    let la = run_length(b, i + 4);
    if la < 1 || la > 3 || la >= n - (i + 4) || b[i + 4 + la] != 44u8 {
        return 0;
    }
    let comma = i + 4 + la;
    let lb = run_length(b, comma + 1);
    if lb < 1 || lb > 3 || lb >= n - (comma + 1) || b[comma + 1 + lb] != 41u8 {
        return 0;
    }
    let x = value_of(b, i + 4, la);
    let y = value_of(b, comma + 1, lb);
    assert(x * y < 1000 * 1000) by (nonlinear_arith)
        requires x < 1000, y < 1000;
    x * y
}

#[verifier::rlimit(40)]
fn total(input: &str, conditional: bool) -> (r: u32)
    requires
        sum(products(input.spec_bytes(), conditional)) <= u32::MAX,
    ensures
        r == sum(products(input.spec_bytes(), conditional)),
{
    let b = input.as_bytes();
    let ghost p = products(b@, conditional);
    let mul: Vec<u8> = vec![109u8, 117u8, 108u8, 40u8];
    let dw: Vec<u8> = vec![100u8, 111u8, 40u8, 41u8];
    let dontw: Vec<u8> = vec![100u8, 111u8, 110u8, 39u8, 116u8, 40u8, 41u8];
    proof {
        assert(mul@ =~= mul_word());
        assert(dw@ =~= do_word());
        assert(dontw@ =~= dont_word());
    }
    let mut on = true;
    let mut t: u32 = 0;
    let mut i: usize = 0;
    while i < b.len()
        invariant
            p == products(b@, conditional),
            b@ == input.spec_bytes(),
            mul@ == mul_word(),
            dw@ == do_word(),
            dontw@ == dont_word(),
            sum(p) <= u32::MAX,
            i <= b@.len(),
            on == enabled(b@, i as int),
            t == sum(p.take(i as int)),
        decreases b@.len() - i,
    {
        let v = parse_mul(b, i, &mul);
        let add = if !conditional || on { v } else { 0 };
        proof {
            assert(p[i as int] == add);
            assert forall|k: int| 0 <= k < p.len() implies #[trigger] p[k] >= 0 by {}
            lemma_sum_prefix_le(p, i + 1);
            assert(p.take(i + 1).drop_last() == p.take(i as int));
        }
        t = t + add;
        if matches_at(b, i, &dw) {
            on = true;
        } else if matches_at(b, i, &dontw) {
            on = false;
        }
        assert(on == enabled(b@, i + 1));
        i = i + 1;
    }
    assert(p.take(i as int) == p);
    t
}

/// The sum of the products of all well-formed `mul(X,Y)` instructions.
pub fn part1(input: &str) -> (r: u32)
    requires
        sum(products(input.spec_bytes(), false)) <= u32::MAX,
    ensures
        r == sum(products(input.spec_bytes(), false)),
{
    total(input, false)
}

/// The sum of the products of the well-formed `mul(X,Y)` instructions that
/// are enabled.
pub fn part2(input: &str) -> (r: u32)
    requires
        sum(products(input.spec_bytes(), true)) <= u32::MAX,
    ensures
        r == sum(products(input.spec_bytes(), true)),
{
    total(input, true)
}

} // verus!
