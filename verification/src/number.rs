//! Decimal numbers as the condition evaluator reads them.
//!
//! A number is NaN, an infinity, or a finite decimal `±d·10^e` whose digit
//! string `d` has no leading and no trailing zeros (zero has no digits).
//! Numbers are compared by their exact values.
//!
//! These are exact decimals, not IEEE doubles, and no value is rounded to
//! the nearest double. The two readings agree on the numbers conditions
//! are made of (integers and short decimals), and part where a number is
//! not exactly a double:
//! - More than about 15 significant digits: `1.00000000000000001 == 1` is
//!   false here, while the two texts read as the same double.
//! - The ends of the range: a leading digit up to `10^308` stays finite
//!   (`1.8e308` is finite here; as a double it overflows to infinity), and
//!   one down to `10^-324` stays non-zero (`1e-324` is not zero here; as a
//!   double it underflows to zero). Beyond those bounds the number becomes
//!   an infinity or zero, as a double would.
//! - Written out, a number shows all of its digits in positional form
//!   (`1.23456789012345678901`), where a double would show the shortest
//!   text that reads back as the same double (`1.2345678901234568`).
//!   Negative zero is written `-0` either way.

use crate::evaluator::{ascii_ci_equal, ascii_ci_prefix_exec};
use crate::text::{push_char, string_of_all};
use vstd::prelude::*;

verus! {

/// The value of a big-endian digit string.
pub open spec fn dval(d: Seq<u8>) -> nat
    decreases d.len(),
{
    if d.len() == 0 {
        0
    } else {
        dval(d.drop_last()) * 10 + d.last() as nat
    }
}

/// `10^n`.
pub open spec fn pow10(n: nat) -> nat
    decreases n,
{
    if n == 0 {
        1
    } else {
        10 * pow10((n - 1) as nat)
    }
}

/// Every entry is a decimal digit.
pub open spec fn all_digits(d: Seq<u8>) -> bool {
    forall|i: int| 0 <= i < d.len() ==> #[trigger] d[i] < 10
}

pub proof fn lemma_pow10_pos(n: nat)
    ensures
        pow10(n) >= 1,
    decreases n,
{
    if n > 0 {
        lemma_pow10_pos((n - 1) as nat);
    }
}

pub proof fn lemma_pow10_add(a: nat, b: nat)
    ensures
        pow10(a + b) == pow10(a) * pow10(b),
    decreases b,
{
    if b > 0 {
        let b1 = (b - 1) as nat;
        lemma_pow10_add(a, b1);
        let pa = pow10(a);
        let pb1 = pow10(b1);
        assert((a + b1) as nat == (a + b - 1) as nat);
        assert(pow10(a + b) == 10 * pow10(a + b1));
        assert(pow10(a + b1) == pa * pb1);
        assert(pow10(b) == 10 * pb1);
        assert(pa * (10 * pb1) == 10 * (pa * pb1)) by (nonlinear_arith);
    } else {
        assert(a + b == a);
        assert(pow10(b) == 1);
        assert(pow10(a) * 1 == pow10(a));
    }
}

pub proof fn lemma_pow10_mono(a: nat, b: nat)
    requires
        a <= b,
    ensures
        pow10(a) <= pow10(b),
    decreases b,
{
    if a < b {
        lemma_pow10_mono(a, (b - 1) as nat);
        lemma_pow10_pos((b - 1) as nat);
    }
}

/// `dval(x + y) == dval(x) * 10^|y| + dval(y)`.
pub proof fn lemma_dval_concat(x: Seq<u8>, y: Seq<u8>)
    ensures
        dval(x + y) == dval(x) * pow10(y.len()) + dval(y),
    decreases y.len(),
{
    if y.len() == 0 {
        assert(x + y =~= x);
        assert(pow10(0) == 1);
        assert(dval(y) == 0);
        assert(dval(x) * 1 == dval(x));
    } else {
        let y1 = y.drop_last();
        lemma_dval_concat(x, y1);
        assert((x + y).drop_last() =~= x + y1);
        assert((x + y).last() == y.last());
        let l = y.last() as nat;
        let dx = dval(x);
        let dy1 = dval(y1);
        let p1 = pow10(y1.len());
        assert(dval(x + y) == dval(x + y1) * 10 + l);
        assert(dval(x + y1) == dx * p1 + dy1);
        assert(pow10(y.len()) == 10 * p1);
        assert(dval(y) == dy1 * 10 + l);
        assert((dx * p1 + dy1) * 10 + l == dx * (10 * p1) + (dy1 * 10 + l)) by (nonlinear_arith);
    }
}

/// A digit string of length `n` is worth less than `10^n`.
pub proof fn lemma_dval_upper(d: Seq<u8>)
    requires
        all_digits(d),
    ensures
        dval(d) < pow10(d.len()),
    decreases d.len(),
{
    if d.len() > 0 {
        let d1 = d.drop_last();
        assert(all_digits(d1)) by {
            assert forall|i: int| 0 <= i < d1.len() implies #[trigger] d1[i] < 10 by {
                assert(d1[i] == d[i]);
            }
        }
        lemma_dval_upper(d1);
        assert(d.last() < 10) by {
            assert(d[d.len() - 1] < 10);
        }
        assert(dval(d) == dval(d1) * 10 + d.last() as nat);
        assert(pow10(d.len()) == 10 * pow10(d1.len()));
        assert(dval(d1) * 10 + (d.last() as nat) < 10 * pow10(d1.len())) by (nonlinear_arith)
            requires
                dval(d1) < pow10(d1.len()),
                d.last() < 10,
        ;
    }
}

/// A digit string of length `n` that opens with a non-zero digit is worth at
/// least `10^(n-1)`.
pub proof fn lemma_dval_lower(d: Seq<u8>)
    requires
        d.len() > 0,
        d[0] != 0,
    ensures
        dval(d) >= pow10((d.len() - 1) as nat),
{
    let x = d.subrange(0, 1);
    let y = d.subrange(1, d.len() as int);
    assert(x + y =~= d);
    lemma_dval_concat(x, y);
    assert(x.drop_last() =~= Seq::<u8>::empty());
    assert(dval(x.drop_last()) == 0);
    assert(x.last() == d[0]);
    assert(dval(x) == d[0] as nat);
    assert(dval(x) * pow10(y.len()) >= pow10(y.len())) by (nonlinear_arith)
        requires
            dval(x) >= 1,
    ;
}

/// Digit strings of equal length whose first difference is at `k` are
/// ordered as their digits at `k`.
pub proof fn lemma_dval_lex(a: Seq<u8>, b: Seq<u8>, k: int)
    requires
        a.len() == b.len(),
        0 <= k < a.len(),
        all_digits(a),
        all_digits(b),
        a.subrange(0, k) == b.subrange(0, k),
        a[k] < b[k],
    ensures
        dval(a) < dval(b),
{
    let n = a.len();
    let a1 = a.subrange(0, k + 1);
    let a2 = a.subrange(k + 1, n as int);
    let b1 = b.subrange(0, k + 1);
    let b2 = b.subrange(k + 1, n as int);
    assert(a1 + a2 =~= a);
    assert(b1 + b2 =~= b);
    lemma_dval_concat(a1, a2);
    lemma_dval_concat(b1, b2);
    assert(a1.drop_last() =~= a.subrange(0, k));
    assert(b1.drop_last() =~= b.subrange(0, k));
    assert(dval(a1) == dval(a.subrange(0, k)) * 10 + a[k] as nat);
    assert(dval(b1) == dval(b.subrange(0, k)) * 10 + b[k] as nat);
    assert(dval(a1) + 1 <= dval(b1));
    assert(all_digits(a2)) by {
        assert forall|i: int| 0 <= i < a2.len() implies #[trigger] a2[i] < 10 by {
            assert(a2[i] == a[k + 1 + i]);
        }
    }
    lemma_dval_upper(a2);
    let p = pow10(a2.len());
    assert(b2.len() == a2.len());
    assert(dval(a1) * p + dval(a2) < dval(b1) * p + dval(b2)) by (nonlinear_arith)
        requires
            dval(a1) + 1 <= dval(b1),
            dval(a2) < p,
    ;
}

/// `n` zero digits.
pub open spec fn zeros(n: nat) -> Seq<u8> {
    Seq::new(n, |i: int| 0u8)
}

pub proof fn lemma_dval_zeros_suffix(d: Seq<u8>, n: nat)
    ensures
        dval(d + zeros(n)) == dval(d) * pow10(n),
    decreases n,
{
    lemma_dval_concat(d, zeros(n));
    lemma_dval_zeros(n);
}

pub proof fn lemma_dval_zeros(n: nat)
    ensures
        dval(zeros(n)) == 0,
    decreases n,
{
    if n > 0 {
        assert(zeros(n).drop_last() =~= zeros((n - 1) as nat));
        lemma_dval_zeros((n - 1) as nat);
    }
}

// ---------------------------------------------------------------------------
// Numbers
// ---------------------------------------------------------------------------

/// A number: NaN, an infinity, or `±digits·10^exp` with `digits` free of
/// leading and trailing zeros (no digits for zero).
#[derive(Debug)]
pub enum Number {
    Nan,
    Inf { neg: bool },
    Fin { neg: bool, digits: Vec<u8>, exp: i128 },
}

/// The mathematical model of a number.
pub enum NumVal {
    Nan,
    Inf { neg: bool },
    Fin { neg: bool, digits: Seq<u8>, exp: int },
}

pub open spec fn num_view(n: Number) -> NumVal {
    match n {
        Number::Nan => NumVal::Nan,
        Number::Inf { neg } => NumVal::Inf { neg },
        Number::Fin { neg, digits, exp } => NumVal::Fin { neg, digits: digits@, exp: exp as int },
    }
}

/// Largest decimal exponent (of the leading digit) of a finite number.
pub open spec fn max_adj() -> int {
    308
}

/// Smallest decimal exponent (of the leading digit) of a non-zero number.
pub open spec fn min_adj() -> int {
    -324
}

/// A normalised finite number: digits without leading or trailing zeros,
/// zero with exponent 0, the leading digit's exponent within range.
pub open spec fn fin_wf(digits: Seq<u8>, exp: int) -> bool {
    &&& all_digits(digits)
    &&& digits.len() == 0 ==> exp == 0
    &&& digits.len() > 0 ==> {
        &&& digits[0] != 0
        &&& digits.last() != 0
        &&& min_adj() <= digits.len() + exp - 1 <= max_adj()
    }
}

pub open spec fn num_wf(n: NumVal) -> bool {
    match n {
        NumVal::Fin { neg, digits, exp } => fin_wf(digits, exp),
        _ => true,
    }
}

/// Count of leading zero digits of `d` from index `i` on.
pub open spec fn lead_zeros(d: Seq<u8>, i: int) -> int
    decreases d.len() - i,
{
    if 0 <= i < d.len() && d[i] == 0 {
        lead_zeros(d, i + 1)
    } else {
        i
    }
}

/// End of `d[lo..e]` without its trailing zero digits.
pub open spec fn trail_zeros_end(d: Seq<u8>, lo: int, e: int) -> int
    decreases e - lo,
{
    if lo < e <= d.len() && d[e - 1] == 0 {
        trail_zeros_end(d, lo, e - 1)
    } else {
        e
    }
}

/// The number `±dval(d)·10^e`, normalised; beyond the finite range it
/// becomes an infinity, and below the smallest non-zero magnitude zero.
#[verifier::opaque]
pub open spec fn make_fin(neg: bool, d: Seq<u8>, e: int) -> NumVal {
    let a = lead_zeros(d, 0);
    let b = trail_zeros_end(d, a, d.len() as int);
    let nd = d.subrange(a, b);
    let ne = e + (d.len() - b);
    if nd.len() == 0 {
        NumVal::Fin { neg, digits: seq![], exp: 0 }
    } else if nd.len() + ne - 1 > max_adj() {
        NumVal::Inf { neg }
    } else if nd.len() + ne - 1 < min_adj() {
        NumVal::Fin { neg, digits: seq![], exp: 0 }
    } else {
        NumVal::Fin { neg, digits: nd, exp: ne }
    }
}

pub open spec fn is_ascii_digit(c: char) -> bool {
    '0' <= c && c <= '9'
}

/// End of the run of ASCII digits that starts at `p`.
pub open spec fn digit_run_end(s: Seq<char>, p: int) -> int
    decreases s.len() - p,
{
    if 0 <= p < s.len() && is_ascii_digit(s[p]) {
        digit_run_end(s, p + 1)
    } else {
        p
    }
}

/// The digit values of a run of ASCII digits.
pub open spec fn digit_vals(s: Seq<char>) -> Seq<u8> {
    s.map_values(|c: char| ((c as u32) - 48) as u8)
}

/// The optional exponent `[eE][+-]?[0-9]+` that must close `b` from `q` on.
pub open spec fn exp_part(b: Seq<char>, q: int) -> Option<int> {
    if q == b.len() {
        Some(0)
    } else if 0 <= q < b.len() && (b[q] == 'e' || b[q] == 'E') {
        let signed = q + 1 < b.len() && (b[q + 1] == '+' || b[q + 1] == '-');
        let eneg = signed && b[q + 1] == '-';
        let r = if signed { q + 2 } else { q + 1 };
        let t = digit_run_end(b, r);
        if t > r && t == b.len() {
            let v = dval(digit_vals(b.subrange(r, t))) as int;
            Some(if eneg { -v } else { v })
        } else {
            None
        }
    } else {
        None
    }
}

/// `Digit+ | Digit+ '.' Digit* | Digit* '.' Digit+`, then an optional
/// exponent.
pub open spec fn parse_decimal(b: Seq<char>, neg: bool) -> Option<NumVal> {
    let i1 = digit_run_end(b, 0);
    let has_dot = i1 < b.len() && b[i1] == '.';
    let f0 = if has_dot { i1 + 1 } else { i1 };
    let f1 = digit_run_end(b, f0);
    if i1 == 0 && f1 == f0 {
        None
    } else {
        match exp_part(b, f1) {
            None => None,
            Some(e) => Some(
                make_fin(neg, digit_vals(b.subrange(0, i1) + b.subrange(f0, f1)), e - (f1 - f0)),
            ),
        }
    }
}

/// The number written by `s` in the syntax that `f64::from_str` accepts:
/// an optional sign, then `inf`, `infinity` or `nan` in any ASCII case, or
/// decimal digits with an optional point and exponent.
pub open spec fn parse_float(s: Seq<char>) -> Option<NumVal> {
    let signed = s.len() > 0 && (s[0] == '+' || s[0] == '-');
    let neg = signed && s[0] == '-';
    let b = if signed { s.subrange(1, s.len() as int) } else { s };
    if ascii_ci_equal(b, seq!['i', 'n', 'f']) || ascii_ci_equal(
        b,
        seq!['i', 'n', 'f', 'i', 'n', 'i', 't', 'y'],
    ) {
        Some(NumVal::Inf { neg })
    } else if ascii_ci_equal(b, seq!['n', 'a', 'n']) {
        Some(NumVal::Nan)
    } else {
        parse_decimal(b, neg)
    }
}

// ---------------------------------------------------------------------------
// Executable parsing
// ---------------------------------------------------------------------------

/// Bound at which an exponent stops mattering: beyond it every non-zero
/// mantissa that a text can hold is out of range either way.
pub open spec fn exp_cap() -> int {
    0x1_0000_0000_0000_0000_0000
}

pub open spec fn clamp(e: int) -> int {
    if e > exp_cap() {
        exp_cap()
    } else if e < -exp_cap() {
        -exp_cap()
    } else {
        e
    }
}

proof fn lemma_make_fin_clamp(neg: bool, d: Seq<u8>, e: int, f: int)
    requires
        d.len() < 0x1_0000_0000_0000_0000,
        0 <= f < 0x1_0000_0000_0000_0000,
    ensures
        make_fin(neg, d, clamp(e) - f) == make_fin(neg, d, e - f),
{
    reveal(make_fin);
    let a = lead_zeros(d, 0);
    lemma_lead_zeros(d, 0);
    let b = trail_zeros_end(d, a, d.len() as int);
    lemma_trail_zeros_end(d, a, d.len() as int);
}

pub proof fn lemma_lead_zeros(d: Seq<u8>, i: int)
    requires
        0 <= i <= d.len(),
    ensures
        i <= lead_zeros(d, i) <= d.len(),
        forall|k: int| i <= k < lead_zeros(d, i) ==> #[trigger] d[k] == 0,
        lead_zeros(d, i) < d.len() ==> d[lead_zeros(d, i)] != 0,
    decreases d.len() - i,
{
    if i < d.len() && d[i] == 0 {
        lemma_lead_zeros(d, i + 1);
    }
}

pub proof fn lemma_trail_zeros_end(d: Seq<u8>, lo: int, e: int)
    requires
        0 <= lo <= e <= d.len(),
    ensures
        lo <= trail_zeros_end(d, lo, e) <= e,
        forall|k: int| trail_zeros_end(d, lo, e) <= k < e ==> #[trigger] d[k] == 0,
        trail_zeros_end(d, lo, e) > lo ==> d[trail_zeros_end(d, lo, e) - 1] != 0,
    decreases e - lo,
{
    if lo < e && d[e - 1] == 0 {
        lemma_trail_zeros_end(d, lo, e - 1);
    }
}

fn digit_run_end_exec(s: &[char], p: usize) -> (r: usize)
    requires
        p <= s.len(),
    ensures
        r as int == digit_run_end(s@, p as int),
        p <= r <= s.len(),
{
    let mut i = p;
    while i < s.len() && '0' <= s[i] && s[i] <= '9'
        invariant
            p <= i <= s.len(),
            digit_run_end(s@, i as int) == digit_run_end(s@, p as int),
        decreases s.len() - i,
    {
        i += 1;
    }
    i
}

pub proof fn lemma_digit_run_end(s: Seq<char>, p: int)
    requires
        0 <= p <= s.len(),
    ensures
        p <= digit_run_end(s, p) <= s.len(),
        forall|k: int| p <= k < digit_run_end(s, p) ==> is_ascii_digit(#[trigger] s[k]),
        digit_run_end(s, p) < s.len() ==> !is_ascii_digit(s[digit_run_end(s, p)]),
    decreases s.len() - p,
{
    if p < s.len() && is_ascii_digit(s[p]) {
        lemma_digit_run_end(s, p + 1);
    }
}

proof fn lemma_clamp_step(v: nat, d: nat)
    ensures
        clamp(clamp(v as int) * 10 + d) == clamp((v * 10 + d) as int),
{
}

/// `clamp(dval(digits of s[r..t]))`, accumulated without overflow.
fn clamped_value(s: &[char], r: usize, t: usize) -> (v: i128)
    requires
        r <= t <= s.len(),
        forall|k: int| r <= k < t ==> is_ascii_digit(#[trigger] s@[k]),
    ensures
        v as int == clamp(dval(digit_vals(s@.subrange(r as int, t as int))) as int),
        0 <= v <= exp_cap(),
{
    let mut v: i128 = 0;
    let mut i = r;
    while i < t
        invariant
            r <= i <= t <= s.len(),
            forall|k: int| r <= k < t ==> is_ascii_digit(#[trigger] s@[k]),
            v as int == clamp(dval(digit_vals(s@.subrange(r as int, i as int))) as int),
            0 <= v <= exp_cap(),
        decreases t - i,
    {
        let ghost pre = digit_vals(s@.subrange(r as int, i as int));
        let ghost nxt = digit_vals(s@.subrange(r as int, i + 1));
        assert(nxt.drop_last() =~= pre);
        assert(is_ascii_digit(s@[i as int]));
        let d = (s[i] as u32 - 48) as i128;
        assert(nxt.last() as int == d);
        proof {
            lemma_clamp_step(dval(pre), d as nat);
        }
        let w = v * 10 + d;
        v = if w > 0x1_0000_0000_0000_0000_0000 { 0x1_0000_0000_0000_0000_0000 } else { w };
        i += 1;
    }
    v
}

/// Executable form of [`exp_part`], with the exponent clamped.
fn exp_part_exec(b: &[char], q: usize) -> (r: Option<i128>)
    requires
        q <= b.len(),
    ensures
        match r {
            Some(e) => exp_part(b@, q as int).is_some() && e as int == clamp(exp_part(b@, q as int).unwrap()),
            None => exp_part(b@, q as int).is_none(),
        },
{
    if q == b.len() {
        return Some(0);
    }
    if b[q] == 'e' || b[q] == 'E' {
        let signed = q + 1 < b.len() && (b[q + 1] == '+' || b[q + 1] == '-');
        let eneg = signed && b[q + 1] == '-';
        let r = if signed { q + 2 } else { q + 1 };
        let t = digit_run_end_exec(b, r);
        if t > r && t == b.len() {
            proof {
                lemma_digit_run_end(b@, r as int);
            }
            let v = clamped_value(b, r, t);
            return Some(if eneg { -v } else { v });
        }
    }
    None
}

/// The digit values of `s[lo..hi]` (ASCII digits).
fn digits_of(s: &[char], lo: usize, hi: usize, out: &mut Vec<u8>)
    requires
        lo <= hi <= s.len(),
        forall|k: int| lo <= k < hi ==> is_ascii_digit(#[trigger] s@[k]),
    ensures
        final(out)@ == old(out)@ + digit_vals(s@.subrange(lo as int, hi as int)),
{
    let mut i = lo;
    while i < hi
        invariant
            lo <= i <= hi <= s.len(),
            forall|k: int| lo <= k < hi ==> is_ascii_digit(#[trigger] s@[k]),
            out@ == old(out)@ + digit_vals(s@.subrange(lo as int, i as int)),
        decreases hi - i,
    {
        assert(is_ascii_digit(s@[i as int]));
        out.push((s[i] as u32 - 48) as u8);
        assert(digit_vals(s@.subrange(lo as int, i + 1)) =~= digit_vals(s@.subrange(lo as int, i as int)).push(
            ((s@[i as int] as u32) - 48) as u8,
        ));
        i += 1;
    }
}

/// Executable form of [`make_fin`] for a mantissa no longer than a text.
fn make_fin_exec(neg: bool, d: Vec<u8>, e: i128) -> (r: Number)
    requires
        all_digits(d@),
        d@.len() < 0x1_0000_0000_0000_0000,
        -0x2_0000_0000_0000_0000_0000 <= e <= 0x2_0000_0000_0000_0000_0000,
    ensures
        num_view(r) == make_fin(neg, d@, e as int),
        num_wf(num_view(r)),
{
    reveal(make_fin);
    let mut a: usize = 0;
    while a < d.len() && d[a] == 0
        invariant
            a <= d@.len(),
            lead_zeros(d@, a as int) == lead_zeros(d@, 0),
        decreases d.len() - a,
    {
        a += 1;
    }
    let mut b: usize = d.len();
    while b > a && d[b - 1] == 0
        invariant
            a <= b <= d@.len(),
            trail_zeros_end(d@, a as int, b as int) == trail_zeros_end(d@, a as int, d@.len() as int),
        decreases b - a,
    {
        b -= 1;
    }
    proof {
        lemma_lead_zeros(d@, 0);
        lemma_trail_zeros_end(d@, a as int, d@.len() as int);
    }
    if a == b {
        let r = Number::Fin { neg, digits: Vec::new(), exp: 0 };
        assert(d@.subrange(a as int, b as int) =~= Seq::<u8>::empty());
        assert(num_view(r) =~~= make_fin(neg, d@, e as int));
        return r;
    }
    let ne: i128 = e + (d.len() - b) as i128;
    let adj: i128 = (b - a) as i128 + ne - 1;
    if adj > 308 {
        return Number::Inf { neg };
    }
    if adj < -324 {
        let r = Number::Fin { neg, digits: Vec::new(), exp: 0 };
        assert(num_view(r) =~~= make_fin(neg, d@, e as int));
        return r;
    }
    let mut nd: Vec<u8> = Vec::new();
    let mut i = a;
    while i < b
        invariant
            a <= i <= b <= d@.len(),
            nd@ == d@.subrange(a as int, i as int),
        decreases b - i,
    {
        nd.push(d[i]);
        assert(d@.subrange(a as int, i + 1) =~= d@.subrange(a as int, i as int).push(d@[i as int]));
        i += 1;
    }
    let r = Number::Fin { neg, digits: nd, exp: ne };
    proof {
        let ndv = d@.subrange(a as int, b as int);
        assert(ndv[0] == d@[a as int]);
        assert(ndv.last() == d@[b - 1]);
        assert(all_digits(ndv)) by {
            assert forall|k: int| 0 <= k < ndv.len() implies #[trigger] ndv[k] < 10 by {
                assert(ndv[k] == d@[a + k]);
            }
        }
    }
    assert(num_view(r) =~~= make_fin(neg, d@, e as int));
    r
}

/// Executable form of [`ascii_ci_equal`] on `s[lo..]`.
fn ci_equal_from(s: &[char], lo: usize, p: &[char]) -> (r: bool)
    requires
        lo <= s.len(),
    ensures
        r == ascii_ci_equal(s@.subrange(lo as int, s@.len() as int), p@),
{
    s.len() - lo == p.len() && ascii_ci_prefix_exec(s, lo, s.len(), p)
}

/// The number `s` writes, if it is one (see [`parse_float`]).
pub fn parse_number(s: &[char]) -> (r: Option<Number>)
    ensures
        match r {
            Some(n) => parse_float(s@) == Some(num_view(n)) && num_wf(num_view(n)),
            None => parse_float(s@).is_none(),
        },
{
    let signed = s.len() > 0 && (s[0] == '+' || s[0] == '-');
    let neg = signed && s[0] == '-';
    let start: usize = if signed { 1 } else { 0 };
    let ghost b = if signed { s@.subrange(1, s@.len() as int) } else { s@ };
    assert(b =~= s@.subrange(start as int, s@.len() as int));
    if ci_equal_from(s, start, &['i', 'n', 'f']) || ci_equal_from(s, start, &['i', 'n', 'f', 'i', 'n', 'i', 't', 'y']) {
        return Some(Number::Inf { neg });
    }
    if ci_equal_from(s, start, &['n', 'a', 'n']) {
        return Some(Number::Nan);
    }
    parse_decimal_exec(s, start, neg)
}

/// Executable form of [`parse_decimal`] on `s[start..]`.
fn parse_decimal_exec(s: &[char], start: usize, neg: bool) -> (r: Option<Number>)
    requires
        start <= s.len(),
    ensures
        match r {
            Some(n) => parse_decimal(s@.subrange(start as int, s@.len() as int), neg) == Some(num_view(n))
                && num_wf(num_view(n)),
            None => parse_decimal(s@.subrange(start as int, s@.len() as int), neg).is_none(),
        },
{
    let ghost b = s@.subrange(start as int, s@.len() as int);
    let i1 = digit_run_end_exec(s, start);
    let has_dot = i1 < s.len() && s[i1] == '.';
    let f0 = if has_dot { i1 + 1 } else { i1 };
    let f1 = digit_run_end_exec(s, f0);
    proof {
        lemma_digit_run_end_shift(s@, start as int, start as int);
        lemma_digit_run_end_shift(s@, start as int, f0 as int);
        lemma_digit_run_end(s@, start as int);
        lemma_digit_run_end(s@, f0 as int);
        if has_dot {
            assert(b[i1 - start] == s@[i1 as int]);
        }
    }
    if i1 == start && f1 == f0 {
        return None;
    }
    let ec = exp_part_exec(s, f1);
    proof {
        lemma_exp_part_shift(s@, start as int, f1 as int);
    }
    match ec {
        None => None,
        Some(ec) => {
            let mut d: Vec<u8> = Vec::new();
            digits_of(s, start, i1, &mut d);
            digits_of(s, f0, f1, &mut d);
            let ghost dv = digit_vals(b.subrange(0, i1 - start) + b.subrange(f0 - start, f1 - start));
            proof {
                assert(b.subrange(0, i1 - start) =~= s@.subrange(start as int, i1 as int));
                assert(b.subrange(f0 - start, f1 - start) =~= s@.subrange(f0 as int, f1 as int));
                assert(d@ =~= dv);
                assert(all_digits(d@)) by {
                    assert forall|k: int| 0 <= k < d@.len() implies #[trigger] d@[k] < 10 by {
                        if k < i1 - start {
                            assert(is_ascii_digit(s@[start + k]));
                        } else {
                            assert(is_ascii_digit(s@[f0 + k - (i1 - start)]));
                        }
                    }
                }
                lemma_make_fin_clamp(neg, d@, exp_part(b, f1 - start).unwrap(), f1 - f0);
            }
            let n = make_fin_exec(neg, d, ec - (f1 - f0) as i128);
            Some(n)
        },
    }
}

proof fn lemma_digit_run_end_shift(s: Seq<char>, start: int, p: int)
    requires
        0 <= start <= p <= s.len(),
    ensures
        digit_run_end(s.subrange(start, s.len() as int), p - start) == digit_run_end(s, p) - start,
    decreases s.len() - p,
{
    let b = s.subrange(start, s.len() as int);
    if p < s.len() {
        assert(b[p - start] == s[p]);
        if is_ascii_digit(s[p]) {
            lemma_digit_run_end_shift(s, start, p + 1);
        }
    }
}

proof fn lemma_exp_part_shift(s: Seq<char>, start: int, q: int)
    requires
        0 <= start <= q <= s.len(),
    ensures
        exp_part(s.subrange(start, s.len() as int), q - start) == exp_part(s, q),
{
    let b = s.subrange(start, s.len() as int);
    if q < s.len() {
        assert(b[q - start] == s[q]);
        if q + 1 < s.len() {
            assert(b[q + 1 - start] == s[q + 1]);
        }
        let signed = q + 1 < s.len() && (s[q + 1] == '+' || s[q + 1] == '-');
        let r = if signed { q + 2 } else { q + 1 };
        if r <= s.len() {
            lemma_digit_run_end_shift(s, start, r);
            let t = digit_run_end(s, r);
            lemma_digit_run_end(s, r);
            assert(b.subrange(r - start, t - start) =~= s.subrange(r, t));
        }
    }
}

// ---------------------------------------------------------------------------
// Order
// ---------------------------------------------------------------------------

/// `dval(d)·10^(e-m)`: the magnitude of `d·10^e` in units of `10^m`.
pub open spec fn mag(d: Seq<u8>, e: int, m: int) -> int {
    (dval(d) * pow10((e - m) as nat)) as int
}

/// The signed value of a finite number in units of `10^m`.
pub open spec fn scaled(neg: bool, d: Seq<u8>, e: int, m: int) -> int {
    if neg {
        -mag(d, e, m)
    } else {
        mag(d, e, m)
    }
}

pub open spec fn sign_of(x: int) -> int {
    if x < 0 {
        -1
    } else if x == 0 {
        0
    } else {
        1
    }
}

pub open spec fn min_int(a: int, b: int) -> int {
    if a <= b {
        a
    } else {
        b
    }
}

/// How `a` compares with `b` by value: `-1`, `0` or `1`, or nothing when
/// either is NaN. Infinities lie beyond every finite number; zero is
/// unsigned.
pub open spec fn num_order(a: NumVal, b: NumVal) -> Option<int> {
    match (a, b) {
        (NumVal::Nan, _) => None,
        (_, NumVal::Nan) => None,
        (NumVal::Inf { neg: x }, NumVal::Inf { neg: y }) => Some(
            if x == y {
                0
            } else if x {
                -1
            } else {
                1
            },
        ),
        (NumVal::Inf { neg }, _) => Some(if neg { -1 } else { 1 }),
        (_, NumVal::Inf { neg }) => Some(if neg { 1 } else { -1 }),
        (NumVal::Fin { neg: na, digits: da, exp: ea }, NumVal::Fin { neg: nb, digits: db, exp: eb }) => {
            let m = min_int(ea, eb);
            Some(sign_of(scaled(na, da, ea, m) - scaled(nb, db, eb, m)))
        },
    }
}

/// The number is not zero (NaN counts as not zero).
pub open spec fn num_truthy(n: NumVal) -> bool {
    match n {
        NumVal::Fin { digits, .. } => dval(digits) != 0,
        _ => true,
    }
}

proof fn lemma_mag_bounds(d: Seq<u8>, e: int, m: int)
    requires
        fin_wf(d, e),
        d.len() > 0,
        e >= m,
    ensures
        pow10((d.len() - 1 + e - m) as nat) <= mag(d, e, m) < pow10((d.len() + e - m) as nat),
{
    lemma_dval_lower(d);
    lemma_dval_upper(d);
    let p = pow10((e - m) as nat);
    lemma_pow10_pos((e - m) as nat);
    lemma_pow10_add((d.len() - 1) as nat, (e - m) as nat);
    lemma_pow10_add(d.len(), (e - m) as nat);
    let lo = pow10((d.len() - 1) as nat);
    let hi = pow10(d.len());
    assert(lo * p <= dval(d) * p) by (nonlinear_arith)
        requires
            lo <= dval(d),
    ;
    assert(dval(d) * p < hi * p) by (nonlinear_arith)
        requires
            dval(d) < hi,
            p >= 1,
    ;
    assert(((d.len() - 1) as nat + (e - m) as nat) as nat == (d.len() - 1 + e - m) as nat);
    assert((d.len() + (e - m) as nat) as nat == (d.len() + e - m) as nat);
}

proof fn lemma_mag_pad(d: Seq<u8>, e: int, m: int, l: nat)
    requires
        d.len() <= l,
        e - m - (l - d.len()) >= 0,
    ensures
        mag(d, e, m) == dval(d + zeros((l - d.len()) as nat)) * pow10((e - m - (l - d.len())) as nat),
{
    let z = (l - d.len()) as nat;
    let r = (e - m - z) as nat;
    lemma_dval_zeros_suffix(d, z);
    lemma_pow10_add(z, r);
    assert((z + r) as nat == (e - m) as nat);
    assert(dval(d) * (pow10(z) * pow10(r)) == (dval(d) * pow10(z)) * pow10(r)) by (nonlinear_arith);
}

/// The digit at `i` of `d` padded with zeros on the right.
pub open spec fn padded(d: Seq<u8>, i: int) -> u8 {
    if i < d.len() {
        d[i]
    } else {
        0
    }
}

/// Compares the magnitudes of two non-zero normalised finite numbers.
fn magnitude_order(da: &Vec<u8>, ea: i128, db: &Vec<u8>, eb: i128) -> (r: i8)
    requires
        fin_wf(da@, ea as int),
        fin_wf(db@, eb as int),
        da@.len() > 0,
        db@.len() > 0,
    ensures
        r as int == sign_of(mag(da@, ea as int, min_int(ea as int, eb as int)) - mag(db@, eb as int, min_int(ea as int, eb as int))),
{
    let ghost m = min_int(ea as int, eb as int);
    let adj_a: i128 = da.len() as i128 + ea - 1;
    let adj_b: i128 = db.len() as i128 + eb - 1;
    proof {
        lemma_mag_bounds(da@, ea as int, m);
        lemma_mag_bounds(db@, eb as int, m);
    }
    if adj_a > adj_b {
        proof {
            lemma_pow10_mono((db@.len() + eb - m) as nat, (da@.len() - 1 + ea - m) as nat);
        }
        return 1;
    }
    if adj_a < adj_b {
        proof {
            lemma_pow10_mono((da@.len() + ea - m) as nat, (db@.len() - 1 + eb - m) as nat);
        }
        return -1;
    }
    let la = da.len();
    let lb = db.len();
    let l = if la > lb { la } else { lb };
    let ghost pa = da@ + zeros((l - la) as nat);
    let ghost pb = db@ + zeros((l - lb) as nat);
    let ghost rest = (ea - m - (l - la)) as nat;
    proof {
        lemma_mag_pad(da@, ea as int, m, l as nat);
        lemma_mag_pad(db@, eb as int, m, l as nat);
        assert(ea - m - (l - la) == eb - m - (l - lb));
        assert(all_digits(pa)) by {
            assert forall|k: int| 0 <= k < pa.len() implies #[trigger] pa[k] < 10 by {
                if k < la {
                    assert(pa[k] == da@[k]);
                }
            }
        }
        assert(all_digits(pb)) by {
            assert forall|k: int| 0 <= k < pb.len() implies #[trigger] pb[k] < 10 by {
                if k < lb {
                    assert(pb[k] == db@[k]);
                }
            }
        }
        lemma_pow10_pos(rest);
        assert((eb - m - (l - lb)) as nat == rest);
    }
    let mut i: usize = 0;
    while i < l
        invariant
            i <= l,
            l == pa.len(),
            l == pb.len(),
            la == da@.len(),
            lb == db@.len(),
            pa == da@ + zeros((l - la) as nat),
            pb == db@ + zeros((l - lb) as nat),
            pa.subrange(0, i as int) == pb.subrange(0, i as int),
            all_digits(pa),
            all_digits(pb),
            pow10(rest) >= 1,
            m == min_int(ea as int, eb as int),
            mag(da@, ea as int, m) == dval(pa) * pow10(rest),
            mag(db@, eb as int, m) == dval(pb) * pow10(rest),
        decreases l - i,
    {
        let ca = if i < la { da[i] } else { 0 };
        let cb = if i < lb { db[i] } else { 0 };
        assert(ca == pa[i as int]);
        assert(cb == pb[i as int]);
        if ca != cb {
            proof {
                let p = pow10(rest);
                if ca < cb {
                    lemma_dval_lex(pa, pb, i as int);
                    assert(dval(pa) * p < dval(pb) * p) by (nonlinear_arith)
                        requires
                            dval(pa) < dval(pb),
                            p >= 1,
                    ;
                } else {
                    assert(pb.subrange(0, i as int) == pa.subrange(0, i as int));
                    lemma_dval_lex(pb, pa, i as int);
                    assert(dval(pb) * p < dval(pa) * p) by (nonlinear_arith)
                        requires
                            dval(pb) < dval(pa),
                            p >= 1,
                    ;
                }
            }
            return if ca < cb { -1 } else { 1 };
        }
        assert(pa.subrange(0, i + 1) =~= pa.subrange(0, i as int).push(ca));
        assert(pb.subrange(0, i + 1) =~= pb.subrange(0, i as int).push(cb));
        i += 1;
    }
    assert(pa =~= pa.subrange(0, l as int));
    assert(pb =~= pb.subrange(0, l as int));
    0
}

proof fn lemma_dval_pos(d: Seq<u8>, e: int)
    requires
        fin_wf(d, e),
    ensures
        (dval(d) == 0) == (d.len() == 0),
{
    if d.len() > 0 {
        lemma_dval_lower(d);
        lemma_pow10_pos((d.len() - 1) as nat);
    }
}

/// Executable form of [`num_order`] for normalised numbers.
pub fn number_order(a: &Number, b: &Number) -> (r: Option<i8>)
    requires
        num_wf(num_view(*a)),
        num_wf(num_view(*b)),
    ensures
        match r {
            Some(x) => num_order(num_view(*a), num_view(*b)) == Some(x as int),
            None => num_order(num_view(*a), num_view(*b)).is_none(),
        },
{
    match (a, b) {
        (Number::Nan, _) => None,
        (_, Number::Nan) => None,
        (Number::Inf { neg: x }, Number::Inf { neg: y }) => Some(
            if *x == *y {
                0
            } else if *x {
                -1
            } else {
                1
            },
        ),
        (Number::Inf { neg }, _) => Some(if *neg { -1 } else { 1 }),
        (_, Number::Inf { neg }) => Some(if *neg { 1 } else { -1 }),
        (Number::Fin { neg: na, digits: da, exp: ea }, Number::Fin { neg: nb, digits: db, exp: eb }) => {
            let ghost m = min_int(*ea as int, *eb as int);
            proof {
                lemma_dval_pos(da@, *ea as int);
                lemma_dval_pos(db@, *eb as int);
                lemma_pow10_pos((*ea - m) as nat);
                lemma_pow10_pos((*eb - m) as nat);
                let pa = pow10((*ea - m) as nat);
                let pb = pow10((*eb - m) as nat);
                assert(dval(da@) > 0 ==> dval(da@) * pa > 0) by (nonlinear_arith)
                    requires
                        pa >= 1,
                ;
                assert(dval(db@) > 0 ==> dval(db@) * pb > 0) by (nonlinear_arith)
                    requires
                        pb >= 1,
                ;
            }
            let za = da.len() == 0;
            let zb = db.len() == 0;
            if za && zb {
                return Some(0);
            }
            if za {
                return Some(if *nb { 1 } else { -1 });
            }
            if zb {
                return Some(if *na { -1 } else { 1 });
            }
            if *na != *nb {
                return Some(if *na { -1 } else { 1 });
            }
            let c = magnitude_order(da, *ea, db, *eb);
            Some(if *na { -c } else { c })
        },
    }
}

/// Executable form of [`num_truthy`].
pub fn num_is_truthy(n: &Number) -> (r: bool)
    requires
        num_wf(num_view(*n)),
    ensures
        r == num_truthy(num_view(*n)),
{
    match n {
        Number::Fin { digits, exp, .. } => {
            proof {
                lemma_dval_pos(digits@, *exp as int);
            }
            digits.len() > 0
        },
        _ => true,
    }
}

// ---------------------------------------------------------------------------
// Display
// ---------------------------------------------------------------------------

/// The character of a digit.
pub open spec fn digit_char(x: u8) -> char {
    ((x as u32) + 48) as char
}

pub open spec fn digit_chars(d: Seq<u8>) -> Seq<char> {
    d.map_values(|x: u8| digit_char(x))
}

pub open spec fn zero_chars(n: nat) -> Seq<char> {
    Seq::new(n, |i: int| '0')
}

/// The magnitude of `d·10^e` in plain positional notation.
pub open spec fn mag_text(d: Seq<u8>, e: int) -> Seq<char> {
    if d.len() == 0 {
        seq!['0']
    } else if e >= 0 {
        digit_chars(d) + zero_chars(e as nat)
    } else {
        let k = d.len() + e;
        if k > 0 {
            digit_chars(d.subrange(0, k)) + seq!['.'] + digit_chars(d.subrange(k, d.len() as int))
        } else {
            seq!['0', '.'] + zero_chars((-k) as nat) + digit_chars(d)
        }
    }
}

/// How a number is written out: `NaN`, `inf`, `-inf`, or an optional `-`
/// and the positional decimal form of the magnitude (no exponent).
pub open spec fn num_text(n: NumVal) -> Seq<char> {
    match n {
        NumVal::Nan => seq!['N', 'a', 'N'],
        NumVal::Inf { neg } => if neg {
            seq!['-', 'i', 'n', 'f']
        } else {
            seq!['i', 'n', 'f']
        },
        NumVal::Fin { neg, digits, exp } => if neg {
            seq!['-'] + mag_text(digits, exp)
        } else {
            mag_text(digits, exp)
        },
    }
}

fn push_digits(out: &mut String, d: &Vec<u8>, a: usize, b: usize)
    requires
        a <= b <= d@.len(),
        all_digits(d@),
    ensures
        final(out)@ == old(out)@ + digit_chars(d@.subrange(a as int, b as int)),
{
    let mut i = a;
    while i < b
        invariant
            a <= i <= b <= d@.len(),
            all_digits(d@),
            out@ == old(out)@ + digit_chars(d@.subrange(a as int, i as int)),
        decreases b - i,
    {
        assert(d@[i as int] < 10);
        let c = (d[i] + 48) as char;
        assert(c == digit_char(d@[i as int]));
        push_char(out, c);
        assert(digit_chars(d@.subrange(a as int, i + 1)) =~= digit_chars(d@.subrange(a as int, i as int)).push(c));
        i += 1;
    }
}

fn push_zeros(out: &mut String, n: usize)
    ensures
        final(out)@ == old(out)@ + zero_chars(n as nat),
{
    let mut i: usize = 0;
    while i < n
        invariant
            i <= n,
            out@ == old(out)@ + zero_chars(i as nat),
        decreases n - i,
    {
        push_char(out, '0');
        assert(zero_chars((i + 1) as nat) =~= zero_chars(i as nat).push('0'));
        i += 1;
    }
}

/// Executable form of [`num_text`] for normalised numbers.
pub fn number_text(n: &Number) -> (r: String)
    requires
        num_wf(num_view(*n)),
    ensures
        r@ == num_text(num_view(*n)),
{
    match n {
        Number::Nan => string_of_all(&['N', 'a', 'N']),
        Number::Inf { neg } => if *neg {
            string_of_all(&['-', 'i', 'n', 'f'])
        } else {
            string_of_all(&['i', 'n', 'f'])
        },
        Number::Fin { neg, digits, exp } => {
            let mut out = String::new();
            if *neg {
                push_char(&mut out, '-');
            }
            let ghost pre = out@;
            let len = digits.len();
            if len == 0 {
                push_char(&mut out, '0');
            } else if *exp >= 0 {
                push_digits(&mut out, digits, 0, len);
                assert(digits@.subrange(0, len as int) =~= digits@);
                push_zeros(&mut out, *exp as usize);
            } else {
                let k: i128 = len as i128 + *exp;
                if k > 0 {
                    push_digits(&mut out, digits, 0, k as usize);
                    push_char(&mut out, '.');
                    push_digits(&mut out, digits, k as usize, len);
                } else {
                    push_char(&mut out, '0');
                    push_char(&mut out, '.');
                    push_zeros(&mut out, (-k) as usize);
                    push_digits(&mut out, digits, 0, len);
                    assert(digits@.subrange(0, len as int) =~= digits@);
                }
            }
            assert(out@ =~= pre + mag_text(digits@, *exp as int));
            out
        },
    }
}

} // verus!
