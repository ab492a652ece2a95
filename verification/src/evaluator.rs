//! Static evaluation of dollar-layer conditions and `%var%` interpolation.

use std::collections::HashMap;

use crate::expr::{chars_equal, diags_after, eval_expr, eval_result, EErr};
use crate::lexer::copy_range;
use crate::types::{Diagnostic, SourceLocation};
use crate::text::{chars_of, lowercase, push_char, push_chars, push_str, string_of, to_lower, trim, trim_bounds};
use vstd::prelude::*;

verus! {

// ---------------------------------------------------------------------------
// The variable environment
// ---------------------------------------------------------------------------

/// The entries of a variable environment, key text to value text.
pub uninterp spec fn env_map(env: HashMap<String, String>) -> Map<Seq<char>, Seq<char>>;

/// Looks `key` up in `env` (`HashMap::get`).
///
/// `String` keys compare and hash by their text, so the entry found is the
/// one whose key text is `key`. vstd's own contract for `HashMap::get`
/// applies only to key types it knows to hash by value, which `String` is
/// not among.
#[verifier::external_body]
fn env_get<'a>(env: &'a HashMap<String, String>, key: &str) -> (r: Option<&'a String>)
    ensures
        match r {
            Some(v) => env_map(*env).contains_key(key@) && env_map(*env)[key@] == v@,
            None => !env_map(*env).contains_key(key@),
        },
{
    env.get(key)
}

/// Whether `env` holds the key `key` (`HashMap::contains_key`).
#[verifier::external_body]
fn env_contains(env: &HashMap<String, String>, key: &str) -> (r: bool)
    ensures
        r == env_map(*env).contains_key(key@),
{
    env.contains_key(key)
}

// ---------------------------------------------------------------------------
// Variable interpolation
// ---------------------------------------------------------------------------

/// First index at or after `j` that holds `'%'`, or the end of `t`.
pub open spec fn next_pct(t: Seq<char>, j: int) -> int
    decreases t.len() - j,
{
    if j < 0 || j >= t.len() {
        t.len() as int
    } else if t[j] == '%' {
        j
    } else {
        next_pct(t, j + 1)
    }
}

/// `%name%` (a non-empty name without `%`) starts at `p`.
pub open spec fn var_ref_at(t: Seq<char>, p: int) -> bool {
    0 <= p < t.len() && t[p] == '%' && p + 1 < next_pct(t, p + 1) < t.len()
}

/// `t[p..]` with each `%name%` reference (leftmost first, without overlap)
/// replaced by the value of the lowercased name in `m`, and whether every
/// reference had one; a reference without a value stays as written.
pub open spec fn interp_from(t: Seq<char>, p: int, m: Map<Seq<char>, Seq<char>>) -> (Seq<char>, bool)
    decreases t.len() - p,
{
    if p < 0 || p >= t.len() {
        (seq![], true)
    } else if var_ref_at(t, p) {
        let c = next_pct(t, p + 1);
        let key = lowercase(t.subrange(p + 1, c));
        let rest = interp_from(t, c + 1, m);
        if m.contains_key(key) {
            (m[key] + rest.0, rest.1)
        } else {
            (t.subrange(p, c + 1) + rest.0, false)
        }
    } else {
        let rest = interp_from(t, p + 1, m);
        (seq![t[p]] + rest.0, rest.1)
    }
}

/// `t` with its `%name%` references replaced from `m`, and whether all
/// of them were known.
pub open spec fn interp(t: Seq<char>, m: Map<Seq<char>, Seq<char>>) -> (Seq<char>, bool) {
    interp_from(t, 0, m)
}

pub(crate) fn next_pct_exec(t: &[char], j: usize) -> (r: usize)
    requires
        j <= t.len(),
    ensures
        r as int == next_pct(t@, j as int),
        j <= r <= t.len(),
{
    let mut k = j;
    while k < t.len() && t[k] != '%'
        invariant
            j <= k <= t.len(),
            next_pct(t@, k as int) == next_pct(t@, j as int),
        decreases t.len() - k,
    {
        k += 1;
    }
    k
}

/// Replace `%varname%` references in `text` using `env`.
///
/// Returns `(expanded_text, fully_resolved)`.
/// `fully_resolved` is false if any `%var%` had no entry in env.
pub fn interpolate(text: &str, env: &HashMap<String, String>) -> (r: (String, bool))
    ensures
        (r.0@, r.1) == interp(text@, env_map(*env)),
{
    let t = chars_of(text);
    let ghost m = env_map(*env);
    let mut out = String::new();
    let mut resolved = true;
    let mut p: usize = 0;
    while p < t.len()
        invariant
            p <= t.len(),
            m == env_map(*env),
            out@ + interp_from(t@, p as int, m).0 == interp(t@, m).0,
            (resolved && interp_from(t@, p as int, m).1) == interp(t@, m).1,
        decreases t.len() - p,
    {
        let ghost before = out@;
        if t[p] == '%' {
            let c = if p + 1 <= t.len() { next_pct_exec(t.as_slice(), p + 1) } else { t.len() };
            if p + 1 < c && c < t.len() {
                let name = string_of(t.as_slice(), p + 1, c);
                let key = to_lower(name.as_str());
                match env_get(env, key.as_str()) {
                    Some(val) => {
                        push_str(&mut out, val.as_str());
                    },
                    None => {
                        let whole = copy_range(t.as_slice(), p, c + 1);
                        push_chars(&mut out, whole.as_slice());
                        resolved = false;
                    },
                }
                assert(out@ + interp_from(t@, c + 1, m).0 =~= before + interp_from(t@, p as int, m).0);
                p = c + 1;
                continue;
            }
        }
        push_char(&mut out, t[p]);
        assert(out@ + interp_from(t@, p + 1, m).0 =~= before + interp_from(t@, p as int, m).0);
        p += 1;
    }
    (out, resolved)
}

// ---------------------------------------------------------------------------
// Condition keyword prefixes
// ---------------------------------------------------------------------------

/// `c` equals the ASCII character `k`, ignoring ASCII case.
pub open spec fn ascii_ci(c: char, k: char) -> bool {
    c == k || ('a' <= k && k <= 'z' && (c as u32) + 32 == (k as u32))
}

/// `t` opens with `p`, ignoring ASCII case.
pub open spec fn ascii_ci_prefix(t: Seq<char>, p: Seq<char>) -> bool {
    t.len() >= p.len() && forall|i: int| 0 <= i < p.len() ==> #[trigger] ascii_ci(t[i], p[i])
}

/// `t` is `p`, ignoring ASCII case.
pub open spec fn ascii_ci_equal(t: Seq<char>, p: Seq<char>) -> bool {
    t.len() == p.len() && ascii_ci_prefix(t, p)
}

/// The number of condition prefixes.
pub open spec fn n_prefixes() -> int {
    13
}

/// Condition prefix `i`: the lowercase text that opens the condition, the
/// keyword it stands for, and whether the operand is a `(…)` list.
pub open spec fn prefix_rule(i: int) -> (Seq<char>, Seq<char>, bool) {
    if i == 0 {
        (seq!['n', 'o', 't', ' ', 's', 'e', 't', ' '], seq!['n', 'o', 't'], false)
    } else if i == 1 {
        (seq!['n', 'o', 't', ' ', 'e', 'x', 'i', 's', 't', ' '], seq!['n', 'o', 't', '_', 'e', 'x', 'i', 's', 't'], false)
    } else if i == 2 {
        (seq!['n', 'o', 't', ' ', 's', 'e', 't', 'e', 'n', 'v', ' '], seq!['n', 'o', 't', '_', 's', 'e', 't', 'e', 'n', 'v'], false)
    } else if i == 3 {
        (seq!['n', 'o', 't', ' ', 's', 'e', 't', 'g', 'l', 'o', 'b', 'a', 'l', ' '], seq!['n', 'o', 't', '_', 's', 'e', 't', 'g', 'l', 'o', 'b', 'a', 'l'], false)
    } else if i == 4 {
        (seq!['n', 'o', 't', ' ', 's', 'e', 't', 'l', 'o', 'c', 'a', 'l', ' '], seq!['n', 'o', 't', '_', 's', 'e', 't', 'l', 'o', 'c', 'a', 'l'], false)
    } else if i == 5 {
        (seq!['n', 'o', 't', ' ', 's', 'a', 'm', 'e', 'a', 's', '('], seq!['n', 'o', 't', '_', 's', 'a', 'm', 'e', 'a', 's'], true)
    } else if i == 6 {
        (seq!['s', 'e', 't', ' '], seq!['s', 'e', 't'], false)
    } else if i == 7 {
        (seq!['e', 'x', 'i', 's', 't', ' '], seq!['e', 'x', 'i', 's', 't'], false)
    } else if i == 8 {
        (seq!['s', 'e', 't', 'e', 'n', 'v', ' '], seq!['s', 'e', 't', 'e', 'n', 'v'], false)
    } else if i == 9 {
        (seq!['s', 'e', 't', 'g', 'l', 'o', 'b', 'a', 'l', ' '], seq!['s', 'e', 't', 'g', 'l', 'o', 'b', 'a', 'l'], false)
    } else if i == 10 {
        (seq!['s', 'e', 't', 'l', 'o', 'c', 'a', 'l', ' '], seq!['s', 'e', 't', 'l', 'o', 'c', 'a', 'l'], false)
    } else if i == 11 {
        (seq!['e', 'r', 'r', 'o', 'r', 'l', 'e', 'v', 'e', 'l'], seq!['e', 'r', 'r', 'o', 'r', 'l', 'e', 'v', 'e', 'l'], false)
    } else if i == 12 {
        (seq!['s', 'a', 'm', 'e', 'a', 's', '('], seq!['s', 'a', 'm', 'e', 'a', 's'], true)
    } else {
        (seq![], seq![], false)
    }
}

/// The keyword and operand of condition `t` (already trimmed), trying
/// the prefixes from index `i` on.
pub open spec fn prefix_from(t: Seq<char>, i: int) -> (Seq<char>, Seq<char>)
    decreases n_prefixes() - i,
{
    if i < 0 || i >= n_prefixes() {
        (seq![], t)
    } else {
        let (pt, kw, paren) = prefix_rule(i);
        if ascii_ci_prefix(t, pt) {
            let rest = t.subrange(pt.len() as int, t.len() as int);
            if paren {
                (kw, trim(rest.subrange(0, crate::text::trim_end_char(rest, rest.len() as int, ')'))))
            } else {
                (kw, trim(rest))
            }
        } else {
            prefix_from(t, i + 1)
        }
    }
}

/// The condition-type keyword that opens `condition` and the remainder,
/// or the empty keyword and the whole trimmed condition.
pub open spec fn condition_prefix(condition: Seq<char>) -> (Seq<char>, Seq<char>) {
    prefix_from(trim(condition), 0)
}

fn prefix_rule_exec(i: usize) -> (r: (&'static [char], &'static str, bool))
    requires
        i < n_prefixes(),
    ensures
        r.0@ == prefix_rule(i as int).0,
        r.1@ == prefix_rule(i as int).1,
        r.2 == prefix_rule(i as int).2,
{
    match i {
        0 => {
            proof { reveal_strlit("not"); }
            assert("not"@ =~= seq!['n', 'o', 't']);
            (&['n', 'o', 't', ' ', 's', 'e', 't', ' '], "not", false)
        },
        1 => {
            proof { reveal_strlit("not_exist"); }
            assert("not_exist"@ =~= seq!['n', 'o', 't', '_', 'e', 'x', 'i', 's', 't']);
            (&['n', 'o', 't', ' ', 'e', 'x', 'i', 's', 't', ' '], "not_exist", false)
        },
        2 => {
            proof { reveal_strlit("not_setenv"); }
            assert("not_setenv"@ =~= seq!['n', 'o', 't', '_', 's', 'e', 't', 'e', 'n', 'v']);
            (&['n', 'o', 't', ' ', 's', 'e', 't', 'e', 'n', 'v', ' '], "not_setenv", false)
        },
        3 => {
            proof { reveal_strlit("not_setglobal"); }
            assert("not_setglobal"@ =~= seq!['n', 'o', 't', '_', 's', 'e', 't', 'g', 'l', 'o', 'b', 'a', 'l']);
            (&['n', 'o', 't', ' ', 's', 'e', 't', 'g', 'l', 'o', 'b', 'a', 'l', ' '], "not_setglobal", false)
        },
        4 => {
            proof { reveal_strlit("not_setlocal"); }
            assert("not_setlocal"@ =~= seq!['n', 'o', 't', '_', 's', 'e', 't', 'l', 'o', 'c', 'a', 'l']);
            (&['n', 'o', 't', ' ', 's', 'e', 't', 'l', 'o', 'c', 'a', 'l', ' '], "not_setlocal", false)
        },
        5 => {
            proof { reveal_strlit("not_sameas"); }
            assert("not_sameas"@ =~= seq!['n', 'o', 't', '_', 's', 'a', 'm', 'e', 'a', 's']);
            (&['n', 'o', 't', ' ', 's', 'a', 'm', 'e', 'a', 's', '('], "not_sameas", true)
        },
        6 => {
            proof { reveal_strlit("set"); }
            assert("set"@ =~= seq!['s', 'e', 't']);
            (&['s', 'e', 't', ' '], "set", false)
        },
        7 => {
            proof { reveal_strlit("exist"); }
            assert("exist"@ =~= seq!['e', 'x', 'i', 's', 't']);
            (&['e', 'x', 'i', 's', 't', ' '], "exist", false)
        },
        8 => {
            proof { reveal_strlit("setenv"); }
            assert("setenv"@ =~= seq!['s', 'e', 't', 'e', 'n', 'v']);
            (&['s', 'e', 't', 'e', 'n', 'v', ' '], "setenv", false)
        },
        9 => {
            proof { reveal_strlit("setglobal"); }
            assert("setglobal"@ =~= seq!['s', 'e', 't', 'g', 'l', 'o', 'b', 'a', 'l']);
            (&['s', 'e', 't', 'g', 'l', 'o', 'b', 'a', 'l', ' '], "setglobal", false)
        },
        10 => {
            proof { reveal_strlit("setlocal"); }
            assert("setlocal"@ =~= seq!['s', 'e', 't', 'l', 'o', 'c', 'a', 'l']);
            (&['s', 'e', 't', 'l', 'o', 'c', 'a', 'l', ' '], "setlocal", false)
        },
        11 => {
            proof { reveal_strlit("errorlevel"); }
            assert("errorlevel"@ =~= seq!['e', 'r', 'r', 'o', 'r', 'l', 'e', 'v', 'e', 'l']);
            (&['e', 'r', 'r', 'o', 'r', 'l', 'e', 'v', 'e', 'l'], "errorlevel", false)
        },
        _ => {
            proof { reveal_strlit("sameas"); }
            assert("sameas"@ =~= seq!['s', 'a', 'm', 'e', 'a', 's']);
            (&['s', 'a', 'm', 'e', 'a', 's', '('], "sameas", true)
        },
    }
}

pub(crate) fn ascii_ci_prefix_exec(t: &[char], lo: usize, hi: usize, p: &[char]) -> (r: bool)
    requires
        lo <= hi <= t.len(),
    ensures
        r == ascii_ci_prefix(t@.subrange(lo as int, hi as int), p@),
{
    let ghost ts = t@.subrange(lo as int, hi as int);
    if p.len() > hi - lo {
        return false;
    }
    let mut i: usize = 0;
    while i < p.len()
        invariant
            i <= p.len(),
            lo + p.len() <= hi <= t.len(),
            ts == t@.subrange(lo as int, hi as int),
            forall|j: int| 0 <= j < i ==> #[trigger] ascii_ci(ts[j], p@[j]),
        decreases p.len() - i,
    {
        let c = t[lo + i];
        let k = p[i];
        assert(ts[i as int] == c);
        if !(c == k || ('a' <= k && k <= 'z' && (c as u32) == (k as u32) - 32)) {
            assert(!ascii_ci(ts[i as int], p@[i as int]));
            return false;
        }
        i += 1;
    }
    true
}

/// Extract a condition-type keyword prefix from a raw condition string.
///
/// Returns `(keyword, remainder)` where keyword is one of:
/// `"set"`, `"not"`, `"exist"`, `"not_exist"`, `"sameas"`, `"not_sameas"`,
/// `"errorlevel"`, `"setenv"`, `"not_setenv"`, `"setglobal"`, `"not_setglobal"`,
/// `"setlocal"`, `"not_setlocal"`, or `""` (plain expression).
pub fn parse_condition_prefix(condition: &str) -> (r: (&'static str, &str))
    ensures
        (r.0@, r.1@) == condition_prefix(condition@),
{
    let t = chars_of(condition);
    let (a, b) = trim_bounds(t.as_slice(), 0, t.len());
    let ghost tt = t@.subrange(a as int, b as int);
    proof {
        assert(t@.subrange(0, t@.len() as int) == t@);
    }
    let mut i: usize = 0;
    while i < 13
        invariant
            i <= n_prefixes(),
            a <= b <= t@.len(),
            t@ == condition@,
            tt == t@.subrange(a as int, b as int),
            tt == trim(condition@),
            prefix_from(tt, i as int) == condition_prefix(condition@),
        decreases 13 - i,
    {
        let (pt, kw, paren) = prefix_rule_exec(i);
        if ascii_ci_prefix_exec(t.as_slice(), a, b, pt) {
            let start = a + pt.len();
            let ghost rest = tt.subrange(pt@.len() as int, tt.len() as int);
            assert(rest =~= t@.subrange(start as int, b as int));
            let end = if paren { crate::text::trim_end_char_exec(t.as_slice(), b, ')') } else { b };
            proof {
                if paren {
                    lemma_trim_end_char_sub(t@, start as int, b as int, ')');
                }
            }
            let end = if end < start { start } else { end };
            let (x, y) = trim_bounds(t.as_slice(), start, end);
            proof {
                if paren {
                    assert(t@.subrange(start as int, end as int) =~= rest.subrange(
                        0,
                        crate::text::trim_end_char(rest, rest.len() as int, ')'),
                    ));
                } else {
                    assert(t@.subrange(start as int, end as int) =~= rest);
                }
            }
            let r = condition.substring_char(x, y);
            return (kw, r);
        }
        i += 1;
    }
    let r = condition.substring_char(a, b);
    (prefix_empty(), r)
}

fn prefix_empty() -> (r: &'static str)
    ensures
        r@ == Seq::<char>::empty(),
{
    proof {
        reveal_strlit("");
    }
    ""
}

proof fn lemma_trim_end_char_sub(t: Seq<char>, start: int, b: int, c: char)
    requires
        0 <= start <= b <= t.len(),
    ensures
        ({
            let e = crate::text::trim_end_char(t, b, c);
            let rest = t.subrange(start, b);
            let e2 = crate::text::trim_end_char(rest, rest.len() as int, c);
            (e >= start ==> e - start == e2) && (e < start ==> e2 == 0)
        }),
    decreases b - start,
{
    let rest = t.subrange(start, b);
    if b > start {
        assert(rest[b - start - 1] == t[b - 1]);
        if t[b - 1] == c {
            lemma_trim_end_char_sub(t, start, b - 1, c);
            assert(t.subrange(start, b - 1) =~= rest.subrange(0, b - start - 1));
            lemma_trim_end_char_prefix(rest, b - start - 1, c);
        }
    } else {
        crate::text::lemma_trim_end_char(t, b, c);
    }
}

proof fn lemma_trim_end_char_prefix(s: Seq<char>, e: int, c: char)
    requires
        0 <= e <= s.len(),
    ensures
        crate::text::trim_end_char(s.subrange(0, e), e, c) == crate::text::trim_end_char(s, e, c),
    decreases e,
{
    if e > 0 {
        assert(s.subrange(0, e)[e - 1] == s[e - 1]);
        if s[e - 1] == c {
            lemma_trim_end_char_prefix(s, e - 1, c);
            assert(s.subrange(0, e).subrange(0, e - 1) =~= s.subrange(0, e - 1));
            lemma_trim_end_char_prefix(s.subrange(0, e), e - 1, c);
        }
    }
}

// ---------------------------------------------------------------------------
// Condition evaluation
// ---------------------------------------------------------------------------

/// How a condition is evaluated, decided by its keyword.
#[derive(Clone, Copy, PartialEq, Eq, Structural)]
pub enum Mode {
    /// File existence, error level, environment variables: unknown statically.
    Unknown,
    /// The variable is defined.
    IsSet,
    /// The variable is not defined.
    NotSet,
    /// `sameas(a, b)`.
    SameAs,
    /// `not sameas(a, b)`.
    NotSameAs,
    /// A plain expression.
    Plain,
}

/// The evaluation mode a keyword selects.
pub open spec fn mode_of_kw(k: Seq<char>) -> Mode {
    if k == seq!['e', 'x', 'i', 's', 't'] || k == seq!['n', 'o', 't', '_', 'e', 'x', 'i', 's', 't'] || k == seq!['e', 'r', 'r', 'o', 'r', 'l', 'e', 'v', 'e', 'l'] || k == seq!['s', 'e', 't', 'e', 'n', 'v'] || k == seq!['n', 'o', 't', '_', 's', 'e', 't', 'e', 'n', 'v'] {
        Mode::Unknown
    } else if k == seq!['s', 'e', 't'] || k == seq!['s', 'e', 't', 'g', 'l', 'o', 'b', 'a', 'l'] || k == seq!['s', 'e', 't', 'l', 'o', 'c', 'a', 'l'] {
        Mode::IsSet
    } else if k == seq!['n', 'o', 't'] || k == seq!['n', 'o', 't', '_', 's', 'e', 't', 'g', 'l', 'o', 'b', 'a', 'l'] || k == seq!['n', 'o', 't', '_', 's', 'e', 't', 'l', 'o', 'c', 'a', 'l'] {
        Mode::NotSet
    } else if k == seq!['s', 'a', 'm', 'e', 'a', 's'] {
        Mode::SameAs
    } else if k == seq!['n', 'o', 't', '_', 's', 'a', 'm', 'e', 'a', 's'] {
        Mode::NotSameAs
    } else {
        Mode::Plain
    }
}

fn mode_of_kw_exec(k: &[char]) -> (r: Mode)
    ensures
        r == mode_of_kw(k@),
{
    let w0: &[char] = &['e', 'x', 'i', 's', 't'];
    assert(w0@ =~= seq!['e', 'x', 'i', 's', 't']);
    let w1: &[char] = &['n', 'o', 't', '_', 'e', 'x', 'i', 's', 't'];
    assert(w1@ =~= seq!['n', 'o', 't', '_', 'e', 'x', 'i', 's', 't']);
    let w2: &[char] = &['e', 'r', 'r', 'o', 'r', 'l', 'e', 'v', 'e', 'l'];
    assert(w2@ =~= seq!['e', 'r', 'r', 'o', 'r', 'l', 'e', 'v', 'e', 'l']);
    let w3: &[char] = &['s', 'e', 't', 'e', 'n', 'v'];
    assert(w3@ =~= seq!['s', 'e', 't', 'e', 'n', 'v']);
    let w4: &[char] = &['n', 'o', 't', '_', 's', 'e', 't', 'e', 'n', 'v'];
    assert(w4@ =~= seq!['n', 'o', 't', '_', 's', 'e', 't', 'e', 'n', 'v']);
    let w5: &[char] = &['s', 'e', 't'];
    assert(w5@ =~= seq!['s', 'e', 't']);
    let w6: &[char] = &['s', 'e', 't', 'g', 'l', 'o', 'b', 'a', 'l'];
    assert(w6@ =~= seq!['s', 'e', 't', 'g', 'l', 'o', 'b', 'a', 'l']);
    let w7: &[char] = &['s', 'e', 't', 'l', 'o', 'c', 'a', 'l'];
    assert(w7@ =~= seq!['s', 'e', 't', 'l', 'o', 'c', 'a', 'l']);
    let w8: &[char] = &['n', 'o', 't'];
    assert(w8@ =~= seq!['n', 'o', 't']);
    let w9: &[char] = &['n', 'o', 't', '_', 's', 'e', 't', 'g', 'l', 'o', 'b', 'a', 'l'];
    assert(w9@ =~= seq!['n', 'o', 't', '_', 's', 'e', 't', 'g', 'l', 'o', 'b', 'a', 'l']);
    let w10: &[char] = &['n', 'o', 't', '_', 's', 'e', 't', 'l', 'o', 'c', 'a', 'l'];
    assert(w10@ =~= seq!['n', 'o', 't', '_', 's', 'e', 't', 'l', 'o', 'c', 'a', 'l']);
    let w11: &[char] = &['s', 'a', 'm', 'e', 'a', 's'];
    assert(w11@ =~= seq!['s', 'a', 'm', 'e', 'a', 's']);
    let w12: &[char] = &['n', 'o', 't', '_', 's', 'a', 'm', 'e', 'a', 's'];
    assert(w12@ =~= seq!['n', 'o', 't', '_', 's', 'a', 'm', 'e', 'a', 's']);
    if chars_equal(k, w0) || chars_equal(k, w1) || chars_equal(k, w2) || chars_equal(k, w3) || chars_equal(k, w4) {
        Mode::Unknown
    } else if chars_equal(k, w5) || chars_equal(k, w6) || chars_equal(k, w7) {
        Mode::IsSet
    } else if chars_equal(k, w8) || chars_equal(k, w9) || chars_equal(k, w10) {
        Mode::NotSet
    } else if chars_equal(k, w11) {
        Mode::SameAs
    } else if chars_equal(k, w12) {
        Mode::NotSameAs
    } else {
        Mode::Plain
    }
}

/// The mode and operand of a condition: an explicit tag names the mode
/// (compared lowercased) and the whole trimmed condition is the operand;
/// otherwise the keyword prefix of the condition decides.
pub open spec fn cond_mode(raw: Seq<char>, tag: Seq<char>) -> (Mode, Seq<char>) {
    if tag.len() > 0 {
        (mode_of_kw(lowercase(tag)), trim(raw))
    } else {
        (mode_of_kw(condition_prefix(raw).0), condition_prefix(raw).1)
    }
}

/// `sameas(a, b)` on the operand list `ops`: the two sides split at the
/// first comma, trimmed and interpolated, compared lowercased; unknown when
/// there is no comma or a side has an unknown variable.
pub open spec fn sameas(ops: Seq<char>, negate: bool, m: Map<Seq<char>, Seq<char>>) -> Option<bool> {
    let c = crate::lexer::next_comma(ops, 0);
    if c >= ops.len() {
        None
    } else {
        let a = interp(trim(ops.subrange(0, c)), m);
        let b = interp(trim(ops.subrange(c + 1, ops.len() as int)), m);
        if !a.1 || !b.1 {
            None
        } else {
            let same = lowercase(trim(a.0)) == lowercase(trim(b.0));
            Some(if negate { !same } else { same })
        }
    }
}

/// The value of a condition under the variables `m`, and the expression
/// and parse error to report, if any.
pub open spec fn cond_eval(raw: Seq<char>, tag: Seq<char>, m: Map<Seq<char>, Seq<char>>) -> (Option<bool>, Option<(Seq<char>, EErr)>) {
    let (mode, operand) = cond_mode(raw, tag);
    match mode {
        Mode::Unknown => (None, None),
        Mode::IsSet => (Some(m.contains_key(interp(lowercase(operand), m).0)), None),
        Mode::NotSet => (Some(!m.contains_key(interp(lowercase(operand), m).0)), None),
        Mode::SameAs => (sameas(operand, false, m), None),
        Mode::NotSameAs => (sameas(operand, true, m), None),
        Mode::Plain => {
            let (exp, ok) = interp(operand, m);
            if !ok {
                (None, None)
            } else {
                let (r, e) = eval_result(exp);
                (r, match e {
                    Some(err) => Some((exp, err)),
                    None => None,
                })
            }
        },
    }
}

fn eval_sameas(operands: &str, negate: bool, env: &HashMap<String, String>) -> (r: Option<bool>)
    ensures
        r == sameas(operands@, negate, env_map(*env)),
{
    let v = chars_of(operands);
    let c = crate::lexer::next_comma_exec(v.as_slice(), 0);
    if c >= v.len() {
        return None;
    }
    let (a0, a1) = trim_bounds(v.as_slice(), 0, c);
    let (b0, b1) = trim_bounds(v.as_slice(), c + 1, v.len());
    let a_raw = string_of(v.as_slice(), a0, a1);
    let b_raw = string_of(v.as_slice(), b0, b1);
    let (a, a_ok) = interpolate(a_raw.as_str(), env);
    let (b, b_ok) = interpolate(b_raw.as_str(), env);
    if !a_ok || !b_ok {
        return None;
    }
    let al = to_lower(crate::text::trim_string(a.as_str()).as_str());
    let bl = to_lower(crate::text::trim_string(b.as_str()).as_str());
    let ac = chars_of(al.as_str());
    let bc = chars_of(bl.as_str());
    let result = chars_equal(ac.as_slice(), bc.as_slice());
    Some(if negate { !result } else { result })
}

/// Evaluate a `$ifthen` condition against the current variable environment.
///
/// Returns `Some(true/false)` when fully resolved, `None` when unknown.
/// Unknown triggers the optimistic policy upstream: all branches are kept.
///
/// `tag` is the `.xxx` suffix from the token (e.g. `"set"`, `"not"`, `"exist"`,
/// or an arbitrary structural label like `"prod"`).
/// When `tag` is a recognised semantic keyword it controls evaluation mode;
/// otherwise evaluation mode is inferred from the condition string itself
/// (e.g. `"set myvar"`, `"not set myvar"`, `"exist file.gms"`).
pub fn evaluate_condition(
    raw_condition: &str,
    tag: &str,
    env: &HashMap<String, String>,
    loc: &SourceLocation,
    diagnostics: &mut Vec<Diagnostic>,
) -> (r: Option<bool>)
    ensures
        r == cond_eval(raw_condition@, tag@, env_map(*env)).0,
        match cond_eval(raw_condition@, tag@, env_map(*env)).1 {
            None => final(diagnostics)@ == old(diagnostics)@,
            Some((exp, e)) => diags_after(old(diagnostics)@, final(diagnostics)@, exp, Some(e), *loc),
        },
{
    let (kw, operand) = if !tag.is_empty() {
        let l = to_lower(tag);
        (chars_of(l.as_str()), crate::text::trim_string(raw_condition))
    } else {
        let (k, rest) = parse_condition_prefix(raw_condition);
        (chars_of(k), rest.to_owned())
    };
    let mode = mode_of_kw_exec(kw.as_slice());
    match mode {
        Mode::Unknown => None,
        Mode::IsSet | Mode::NotSet => {
            let varname = to_lower(operand.as_str());
            let (expanded, _) = interpolate(varname.as_str(), env);
            let present = env_contains(env, expanded.as_str());
            Some(if mode == Mode::IsSet { present } else { !present })
        },
        Mode::SameAs => eval_sameas(operand.as_str(), false, env),
        Mode::NotSameAs => eval_sameas(operand.as_str(), true, env),
        Mode::Plain => {
            let (expanded, fully_resolved) = interpolate(operand.as_str(), env);
            if !fully_resolved {
                return None;
            }
            eval_expr(expanded.as_str(), loc, diagnostics)
        },
    }
}

} // verus!
