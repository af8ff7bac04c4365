//! Keypad robots: the fewest presses on the outermost directional keypad
//! that make the innermost robot type a code on the numeric keypad.
use vstd::prelude::*;
use vstd::string::StringSliceAdditionalSpecFns;
use crate::text::{fits_u64, is_digit, lemma_sum_prefix_le, lines, lines_of, numbers, numbers_of, sum};

verus! {

/// Directional keys: up, down, left, right, and activate.
pub const UP: usize = 0;
pub const DOWN: usize = 1;
pub const LEFT: usize = 2;
pub const RIGHT: usize = 3;
pub const ACTIVATE: usize = 4;

/// Column and row of directional key `k`; the gap is at `(0, 0)`.
pub open spec fn dpad_x(k: int) -> int {
    if k == 2 { 0 } else if k == 0 || k == 1 { 1 } else { 2 }
}

pub open spec fn dpad_y(k: int) -> int {
    if k == 0 || k == 4 { 0 } else { -1 }
}

/// Column and row of numeric key `k` (10 is activate); the gap is at `(0, 0)`.
pub open spec fn num_x(k: int) -> int {
    if k == 0 { 1 } else if k == 10 { 2 } else { (k - 1) % 3 }
}

pub open spec fn num_y(k: int) -> int {
    if k == 0 || k == 10 { 0 } else { (k - 1) / 3 + 1 }
}

pub open spec fn absd(a: int, b: int) -> nat {
    if a >= b { (a - b) as nat } else { (b - a) as nat }
}

/// Presses of `key`, `n` times, after `cur`, each press costing what it
/// costs at directional layer `l`.
pub open spec fn run(l: nat, cur: int, key: int, n: nat) -> nat
    decreases l, 2nat,
{
    if n == 0 { 0 } else { (dcost(l, cur, key) + (n - 1) * dcost(l, key, key)) as nat }
}

/// The cost of moving from `(xs, ys)` to `(xt, yt)` and pressing there,
/// horizontally first (or vertically first when `vertical_first`), where a
/// press on the keypad above costs what it does at directional layer `l`;
/// none when the move crosses the gap.
pub open spec fn move_cost(l: nat, xs: int, ys: int, xt: int, yt: int, vertical_first: bool) -> Option<nat>
    decreases l + 1, 0nat,
{
    let hk: int = if xs < xt { RIGHT as int } else { LEFT as int };
    let nh = absd(xt, xs);
    let vk: int = if yt < ys { DOWN as int } else { UP as int };
    let nv = absd(yt, ys);
    if !vertical_first {
        if xt == 0 && ys == 0 {
            None
        } else {
            let k1: int = if nh > 0 { hk } else { ACTIVATE as int };
            let k2: int = if nv > 0 { vk } else { k1 };
            Some(run(l, ACTIVATE as int, hk, nh) + run(l, k1, vk, nv) + dcost(l, k2, ACTIVATE as int))
        }
    } else {
        if xs == 0 && yt == 0 {
            None
        } else {
            let k1: int = if nv > 0 { vk } else { ACTIVATE as int };
            let k2: int = if nh > 0 { hk } else { k1 };
            Some(run(l, ACTIVATE as int, vk, nv) + run(l, k1, hk, nh) + dcost(l, k2, ACTIVATE as int))
        }
    }
}

/// The cheaper of two ways, where at least one exists.
pub open spec fn cheaper(a: Option<nat>, b: Option<nat>) -> nat {
    match (a, b) {
        (Some(x), Some(y)) => if x < y { x } else { y },
        (Some(x), None) => x,
        (None, Some(y)) => y,
        (None, None) => 0,
    }
}

/// The presses, at the outermost keypad, that press directional key `t`
/// after `s` on the keypad `layer + 1` levels in.
pub open spec fn dcost(layer: nat, s: int, t: int) -> nat
    decreases layer, 1nat,
{
    if layer == 0 {
        1 + absd(dpad_x(t), dpad_x(s)) + absd(dpad_y(t), dpad_y(s))
    } else {
        cheaper(
            move_cost((layer - 1) as nat, dpad_x(s), dpad_y(s), dpad_x(t), dpad_y(t), false),
            move_cost((layer - 1) as nat, dpad_x(s), dpad_y(s), dpad_x(t), dpad_y(t), true),
        )
    }
}

/// The presses that move the numeric robot from key `s` to key `t` and press
/// it, with `layer + 1` directional keypads between.
pub open spec fn ncost(layer: nat, s: int, t: int) -> nat {
    cheaper(
        move_cost(layer, num_x(s), num_y(s), num_x(t), num_y(t), false),
        move_cost(layer, num_x(s), num_y(s), num_x(t), num_y(t), true),
    )
}

pub open spec fn pow4(n: nat) -> nat
    decreases n,
{
    if n == 0 { 1 } else { 4 * pow4((n - 1) as nat) }
}

proof fn lemma_run_bound(l: nat, bound: nat, cur: int, key: int, n: nat)
    requires
        forall|a: int, b: int| #[trigger] dcost(l, a, b) <= bound,
    ensures
        run(l, cur, key, n) <= n * bound,
{
    if n > 0 {
        let x = dcost(l, cur, key);
        let y = dcost(l, key, key);
        assert(x + (n - 1) * y <= n * bound) by (nonlinear_arith)
            requires x <= bound, y <= bound, n >= 1;
    }
}

proof fn lemma_move_bound(l: nat, bound: nat, xs: int, ys: int, xt: int, yt: int, vf: bool)
    requires
        forall|a: int, b: int| #[trigger] dcost(l, a, b) <= bound,
    ensures
        move_cost(l, xs, ys, xt, yt, vf) matches Some(v) ==> v <= (absd(xt, xs) + absd(yt, ys) + 1) * bound,
{
    let hk: int = if xs < xt { RIGHT as int } else { LEFT as int };
    let vk: int = if yt < ys { DOWN as int } else { UP as int };
    let nh = absd(xt, xs);
    let nv = absd(yt, ys);
    reveal_with_fuel(move_cost, 2);
    lemma_run_bound(l, bound, ACTIVATE as int, hk, nh);
    lemma_run_bound(l, bound, ACTIVATE as int, vk, nv);
    lemma_run_bound(l, bound, hk, vk, nv);
    lemma_run_bound(l, bound, ACTIVATE as int, vk, nv);
    lemma_run_bound(l, bound, vk, hk, nh);
    lemma_run_bound(l, bound, ACTIVATE as int, hk, nh);
    assert(nh * bound + nv * bound + bound == (nh + nv + 1) * bound) by (nonlinear_arith);
    if !vf {
        if !(xt == 0 && ys == 0) {
            let k1: int = if nh > 0 { hk } else { ACTIVATE as int };
            let k2: int = if nv > 0 { vk } else { k1 };
            assert(dcost(l, k2, ACTIVATE as int) <= bound);
            assert(move_cost(l, xs, ys, xt, yt, vf) == Some(run(l, ACTIVATE as int, hk, nh) + run(l, k1, vk, nv) + dcost(l, k2, ACTIVATE as int)));
        }
    } else {
        if !(xs == 0 && yt == 0) {
            let k1: int = if nv > 0 { vk } else { ACTIVATE as int };
            let k2: int = if nh > 0 { hk } else { k1 };
            assert(dcost(l, k2, ACTIVATE as int) <= bound);
            assert(move_cost(l, xs, ys, xt, yt, vf) == Some(run(l, ACTIVATE as int, vk, nv) + run(l, k1, hk, nh) + dcost(l, k2, ACTIVATE as int)));
        }
    }
}

proof fn lemma_cheaper(a: Option<nat>, b: Option<nat>, m: nat)
    requires
        a matches Some(x) ==> x <= m,
        b matches Some(y) ==> y <= m,
    ensures
        cheaper(a, b) <= m,
{
}

/// Every press at directional layer `layer` costs at most `4^(layer + 1)`.
proof fn lemma_dcost_bound(layer: nat, s: int, t: int)
    ensures
        dcost(layer, s, t) <= pow4(layer + 1),
    decreases layer,
{
    if layer == 0 {
        reveal_with_fuel(pow4, 2);
        assert(pow4(1) == 4);
    } else {
        let l = (layer - 1) as nat;
        let bound = pow4(layer);
        assert forall|a: int, b: int| #[trigger] dcost(l, a, b) <= bound by {
            lemma_dcost_bound(l, a, b);
        }
        lemma_move_bound(l, bound, dpad_x(s), dpad_y(s), dpad_x(t), dpad_y(t), false);
        lemma_move_bound(l, bound, dpad_x(s), dpad_y(s), dpad_x(t), dpad_y(t), true);
        assert((absd(dpad_x(t), dpad_x(s)) + absd(dpad_y(t), dpad_y(s)) + 1) * bound <= 4 * bound) by (nonlinear_arith)
            requires absd(dpad_x(t), dpad_x(s)) + absd(dpad_y(t), dpad_y(s)) + 1 <= 4;
        lemma_cheaper(
            move_cost(l, dpad_x(s), dpad_y(s), dpad_x(t), dpad_y(t), false),
            move_cost(l, dpad_x(s), dpad_y(s), dpad_x(t), dpad_y(t), true),
            4 * bound,
        );
        assert(pow4(layer + 1) == 4 * pow4(layer));
    }
}

proof fn lemma_pow4_mono(a: nat, b: nat)
    requires
        a <= b,
    ensures
        pow4(a) <= pow4(b),
    decreases b,
{
    if a < b {
        lemma_pow4_mono(a, (b - 1) as nat);
    }
}

proof fn lemma_pow4_25()
    ensures
        pow4(25) == 0x4_0000_0000_0000,
{
    reveal_with_fuel(pow4, 26);
}

/// `t` holds the press costs of directional layer `l`.
pub open spec fn table_ok(t: Seq<Vec<u64>>, l: nat) -> bool {
    &&& t.len() == 5
    &&& forall|a: int| 0 <= a < 5 ==> #[trigger] t[a]@.len() == 5
    &&& forall|a: int, b: int| 0 <= a < 5 && 0 <= b < 5 ==> #[trigger] t[a]@[b] as nat == dcost(l, a, b)
}

fn run_exec(t: &Vec<Vec<u64>>, l: Ghost<nat>, bound: Ghost<nat>, cur: usize, key: usize, n: u64) -> (r: u64)
    requires
        table_ok(t@, l@),
        forall|a: int, b: int| #[trigger] dcost(l@, a, b) <= bound@,
        bound@ <= 0x4_0000_0000_0000,
        cur < 5,
        key < 5,
        n <= 3,
    ensures
        r == run(l@, cur as int, key as int, n as nat),
        r <= n * bound@,
{
    proof {
        lemma_run_bound(l@, bound@, cur as int, key as int, n as nat);
    }
    if n == 0 {
        0
    } else {
        let x = t[cur][key];
        let y = t[key][key];
        assert((n - 1) * y <= 3 * 0x4_0000_0000_0000) by (nonlinear_arith)
            requires n <= 3, y <= 0x4_0000_0000_0000;
        x + (n - 1) * y
    }
}

/// The cost of a move on a keypad, with presses above costing what `t`
/// holds; none when the move crosses the gap.
#[verifier::rlimit(80)]
fn move_exec(t: &Vec<Vec<u64>>, l: Ghost<nat>, bound: Ghost<nat>, xs: i64, ys: i64, xt: i64, yt: i64, vertical_first: bool) -> (r: Option<u64>)
    requires
        table_ok(t@, l@),
        forall|a: int, b: int| #[trigger] dcost(l@, a, b) <= bound@,
        bound@ <= 0x4_0000_0000_0000,
        0 <= xs <= 2,
        0 <= xt <= 2,
        -1 <= ys <= 3,
        -1 <= yt <= 3,
        yt - ys <= 3,
        ys - yt <= 3,
    ensures
        match move_cost(l@, xs as int, ys as int, xt as int, yt as int, vertical_first) {
            Some(v) => r == Some(v as u64) && v <= u64::MAX,
            None => r is None,
        },
        r matches Some(v) ==> v <= 6 * bound@,
{
    let hk: usize = if xs < xt { RIGHT } else { LEFT };
    let nh: u64 = if xt >= xs { (xt - xs) as u64 } else { (xs - xt) as u64 };
    let vk: usize = if yt < ys { DOWN } else { UP };
    let nv: u64 = if yt >= ys { (yt - ys) as u64 } else { (ys - yt) as u64 };
    if !vertical_first {
        if xt == 0 && ys == 0 {
            return None;
        }
        let k1: usize = if nh > 0 { hk } else { ACTIVATE };
        let k2: usize = if nv > 0 { vk } else { k1 };
        let a = run_exec(t, l, bound, ACTIVATE, hk, nh);
        let b = run_exec(t, l, bound, k1, vk, nv);
        let e = t[k2][ACTIVATE];
        assert(e <= bound@);
        assert(nh * bound@ + nv * bound@ + bound@ <= 6 * bound@) by (nonlinear_arith)
            requires nh <= 2, nv <= 3;
        Some(a + b + e)
    } else {
        if xs == 0 && yt == 0 {
            return None;
        }
        let k1: usize = if nv > 0 { vk } else { ACTIVATE };
        let k2: usize = if nh > 0 { hk } else { k1 };
        let a = run_exec(t, l, bound, ACTIVATE, vk, nv);
        let b = run_exec(t, l, bound, k1, hk, nh);
        let e = t[k2][ACTIVATE];
        assert(e <= bound@);
        assert(nv * bound@ + nh * bound@ + bound@ <= 6 * bound@) by (nonlinear_arith)
            requires nh <= 2, nv <= 3;
        Some(a + b + e)
    }
}

fn dpad_xy(k: usize) -> (r: (i64, i64))
    requires
        k < 5,
    ensures
        r.0 == dpad_x(k as int),
        r.1 == dpad_y(k as int),
{
    let x: i64 = if k == 2 { 0 } else if k == 0 || k == 1 { 1 } else { 2 };
    let y: i64 = if k == 0 || k == 4 { 0 } else { -1 };
    (x, y)
}

fn num_xy(k: usize) -> (r: (i64, i64))
    requires
        k < 11,
    ensures
        r.0 == num_x(k as int),
        r.1 == num_y(k as int),
{
    let x: i64 = if k == 0 { 1 } else if k == 10 { 2 } else { ((k - 1) % 3) as i64 };
    let y: i64 = if k == 0 || k == 10 { 0 } else { ((k - 1) / 3 + 1) as i64 };
    (x, y)
}

fn cheaper_exec(h: Option<u64>, v: Option<u64>) -> (r: u64)
    ensures
        r == cheaper(
            match h { Some(x) => Some(x as nat), None => None },
            match v { Some(y) => Some(y as nat), None => None },
        ),
{
    match (h, v) {
        (Some(x), Some(y)) => if x < y { x } else { y },
        (Some(x), None) => x,
        (None, Some(y)) => y,
        (None, None) => 0,
    }
}

/// The press costs of directional layer `layer`.
fn dpad_table(layer: u64) -> (t: Vec<Vec<u64>>)
    requires
        layer <= 24,
    ensures
        table_ok(t@, layer as nat),
{
    let mut t: Vec<Vec<u64>> = Vec::new();
    let mut s: usize = 0;
    while s < 5
        invariant
            s <= 5,
            t@.len() == s,
            forall|a: int| 0 <= a < s ==> #[trigger] t@[a]@.len() == 5,
            forall|a: int, b: int| 0 <= a < s && 0 <= b < 5 ==> #[trigger] t@[a]@[b] as nat == dcost(0, a, b),
        decreases 5 - s,
    {
        let mut row: Vec<u64> = Vec::new();
        let mut k: usize = 0;
        while k < 5
            invariant
                s < 5,
                k <= 5,
                row@.len() == k,
                forall|b: int| 0 <= b < k ==> #[trigger] row@[b] as nat == dcost(0, s as int, b),
            decreases 5 - k,
        {
            let (xs, ys) = dpad_xy(s);
            let (xt, yt) = dpad_xy(k);
            let dx: u64 = if xt >= xs { (xt - xs) as u64 } else { (xs - xt) as u64 };
            let dy: u64 = if yt >= ys { (yt - ys) as u64 } else { (ys - yt) as u64 };
            row.push(1 + dx + dy);
            k = k + 1;
        }
        t.push(row);
        s = s + 1;
    }
    let mut l: u64 = 0;
    while l < layer
        invariant
            l <= layer <= 24,
            table_ok(t@, l as nat),
        decreases layer - l,
    {
        let ghost bound = pow4((l + 1) as nat);
        proof {
            assert forall|a: int, b: int| #[trigger] dcost(l as nat, a, b) <= bound by {
                lemma_dcost_bound(l as nat, a, b);
            }
            lemma_pow4_mono((l + 1) as nat, 25);
            lemma_pow4_25();
        }
        let mut next: Vec<Vec<u64>> = Vec::new();
        let mut s: usize = 0;
        while s < 5
            invariant
                l < layer <= 24,
                table_ok(t@, l as nat),
                forall|a: int, b: int| #[trigger] dcost(l as nat, a, b) <= bound,
                bound <= 0x4_0000_0000_0000,
                s <= 5,
                next@.len() == s,
                forall|a: int| 0 <= a < s ==> #[trigger] next@[a]@.len() == 5,
                forall|a: int, b: int| 0 <= a < s && 0 <= b < 5 ==> #[trigger] next@[a]@[b] as nat == dcost((l + 1) as nat, a, b),
            decreases 5 - s,
        {
            let mut row: Vec<u64> = Vec::new();
            let mut k: usize = 0;
            while k < 5
                invariant
                    l < layer <= 24,
                    table_ok(t@, l as nat),
                    forall|a: int, b: int| #[trigger] dcost(l as nat, a, b) <= bound,
                    bound <= 0x4_0000_0000_0000,
                    s < 5,
                    k <= 5,
                    row@.len() == k,
                    forall|b: int| 0 <= b < k ==> #[trigger] row@[b] as nat == dcost((l + 1) as nat, s as int, b),
                decreases 5 - k,
            {
                let (xs, ys) = dpad_xy(s);
                let (xt, yt) = dpad_xy(k);
                let h = move_exec(&t, Ghost(l as nat), Ghost(bound), xs, ys, xt, yt, false);
                let v = move_exec(&t, Ghost(l as nat), Ghost(bound), xs, ys, xt, yt, true);
                let best = cheaper_exec(h, v);
                proof {
                    reveal_with_fuel(dcost, 2);
                }
                assert(best as nat == dcost((l + 1) as nat, s as int, k as int));
                row.push(best);
                k = k + 1;
            }
            next.push(row);
            s = s + 1;
        }
        t = next;
        l = l + 1;
    }
    t
}

/// The presses for a code line: the number it shows times the presses
/// that type its three digits and activate.
pub open spec fn complexity(l: Seq<u8>, layer: nat) -> int {
    let d0 = (l[0] - 48) as int;
    let d1 = (l[1] - 48) as int;
    let d2 = (l[2] - 48) as int;
    (numbers_of(l)[0] * (ncost(layer, 10, d0) + ncost(layer, d0, d1) + ncost(layer, d1, d2) + ncost(layer, d2, 10))) as int
}

pub open spec fn total(s: Seq<u8>, layer: nat) -> int {
    sum(lines_of(s).map_values(|l: Seq<u8>| complexity(l, layer)))
}

/// Each line: three digits, then a byte that is not one.
pub open spec fn well_formed(s: Seq<u8>) -> bool {
    forall|i: int|
        0 <= i < lines_of(s).len() ==> {
            let l = #[trigger] lines_of(s)[i];
            &&& l.len() >= 4
            &&& is_digit(l[0]) && is_digit(l[1]) && is_digit(l[2])
            &&& fits_u64(l)
            &&& numbers_of(l).len() >= 1
            &&& numbers_of(l)[0] < 1000
        }
}

fn numpad_cost(t: &Vec<Vec<u64>>, l: Ghost<nat>, bound: Ghost<nat>, s: usize, k: usize) -> (r: u64)
    requires
        table_ok(t@, l@),
        forall|a: int, b: int| #[trigger] dcost(l@, a, b) <= bound@,
        bound@ <= 0x4_0000_0000_0000,
        s < 11,
        k < 11,
    ensures
        r == ncost(l@, s as int, k as int),
        r <= 6 * bound@,
{
    let (xs, ys) = num_xy(s);
    let (xt, yt) = num_xy(k);
    let h = move_exec(t, l, bound, xs, ys, xt, yt, false);
    let v = move_exec(t, l, bound, xs, ys, xt, yt, true);
    cheaper_exec(h, v)
}

fn code_total(input: &str, layer: u64) -> (r: u64)
    requires
        layer <= 24,
        well_formed(input.spec_bytes()),
        total(input.spec_bytes(), layer as nat) <= u64::MAX,
    ensures
        r == total(input.spec_bytes(), layer as nat),
{
    let t = dpad_table(layer);
    let ghost bound = pow4((layer + 1) as nat);
    proof {
        assert forall|a: int, b: int| #[trigger] dcost(layer as nat, a, b) <= bound by {
            lemma_dcost_bound(layer as nat, a, b);
        }
        lemma_pow4_mono((layer + 1) as nat, 25);
        lemma_pow4_25();
    }
    let ls = lines(input.as_bytes());
    let ghost sl = lines_of(input.spec_bytes());
    let ghost ts = sl.map_values(|l: Seq<u8>| complexity(l, layer as nat));
    proof {
        assert forall|k: int| 0 <= k < ts.len() implies #[trigger] ts[k] >= 0 by {
            let l = sl[k];
            let d0 = (l[0] - 48) as int;
            let d1 = (l[1] - 48) as int;
            let d2 = (l[2] - 48) as int;
            let m = ncost(layer as nat, 10, d0) + ncost(layer as nat, d0, d1) + ncost(layer as nat, d1, d2) + ncost(layer as nat, d2, 10);
            assert(numbers_of(l)[0] * m >= 0) by (nonlinear_arith)
                requires m >= 0;
        }
    }
    let mut sum_: u64 = 0;
    let mut i: usize = 0;
    while i < ls.len()
        invariant
            sl == lines_of(input.spec_bytes()),
            ts == sl.map_values(|l: Seq<u8>| complexity(l, layer as nat)),
            well_formed(input.spec_bytes()),
            table_ok(t@, layer as nat),
            forall|a: int, b: int| #[trigger] dcost(layer as nat, a, b) <= bound,
            bound <= 0x4_0000_0000_0000,
            ls@.len() == sl.len(),
            forall|k: int| 0 <= k < ls@.len() ==> #[trigger] ls@[k]@ == sl[k],
            forall|k: int| 0 <= k < ts.len() ==> #[trigger] ts[k] >= 0,
            sum(ts) <= u64::MAX,
            i <= ls@.len(),
            sum_ == sum(ts.take(i as int)),
        decreases ls@.len() - i,
    {
        let line = &ls[i];
        assert(line@ == sl[i as int]);
        let d0 = (line[0] - 48) as usize;
        let d1 = (line[1] - 48) as usize;
        let d2 = (line[2] - 48) as usize;
        let ns = numbers(line.as_slice());
        let a = numpad_cost(&t, Ghost(layer as nat), Ghost(bound), 10, d0);
        let b = numpad_cost(&t, Ghost(layer as nat), Ghost(bound), d0, d1);
        let c = numpad_cost(&t, Ghost(layer as nat), Ghost(bound), d1, d2);
        let e = numpad_cost(&t, Ghost(layer as nat), Ghost(bound), d2, 10);
        let m = (a as u128) + (b as u128) + (c as u128) + (e as u128);
        let n = ns[0] as u128;
        assert(n * m <= 1000 * 4 * 6 * 0x4_0000_0000_0000) by (nonlinear_arith)
            requires n < 1000, m <= 4 * 6 * 0x4_0000_0000_0000;
        let v = n * m;
        proof {
            assert(ts[i as int] == v);
            lemma_sum_prefix_le(ts, i + 1);
            lemma_sum_prefix_le(ts, i as int);
            assert(ts.take(i + 1).drop_last() == ts.take(i as int));
        }
        sum_ = sum_ + v as u64;
        i = i + 1;
    }
    assert(ts.take(i as int) == ts);
    sum_
}

/// The sum of the complexities of the codes, typed through two robots'
/// directional keypads.
pub fn part1(input: &str) -> (r: u64)
    requires
        well_formed(input.spec_bytes()),
        total(input.spec_bytes(), 1) <= u64::MAX,
    ensures
        r == total(input.spec_bytes(), 1),
{
    code_total(input, 1)
}

/// The sum of the complexities of the codes, typed through twenty-five
/// robots' directional keypads.
pub fn part2(input: &str) -> (r: u64)
    requires
        well_formed(input.spec_bytes()),
        total(input.spec_bytes(), 24) <= u64::MAX,
    ensures
        r == total(input.spec_bytes(), 24),
{
    code_total(input, 24)
}

} // verus!
