//! The expression language of dollar conditions: a small lexer, a
//! recursive-descent parser with three-valued logic, and value comparison.
//!
//! ```text
//!   cond  ::= or_expr
//!   or    ::= and (OR and)*
//!   and   ::= not  (AND not)*
//!   not   ::= NOT not | comparison
//!   comp  ::= '(' cond ')' | value OP value | value
//!   value ::= NUM | STR | WORD
//!   OP    ::= '==' | '!=' | '<>' | '<' | '<=' | '>' | '>='
//! ```

use crate::number::{
    num_order, num_text, num_truthy, num_view, num_wf, number_order, number_text, num_is_truthy,
    parse_float, parse_number, NumVal, Number,
};
use crate::text::{
    chars_of, is_digit, is_digit_char, is_word, is_word_char, is_ws, is_whitespace,
    kw_at, kw_at_exec, lowercase, push_chars, push_str, string_of, string_of_all,
    to_lower, trim, trim_string,
};
use crate::types::{Diagnostic, Severity, SourceLocation};
use vstd::prelude::*;

verus! {

// ---------------------------------------------------------------------------
// Tokens
// ---------------------------------------------------------------------------

#[derive(Debug)]
pub enum ExprToken {
    LParen,
    RParen,
    And,
    Or,
    Not,
    Op(String),
    Num(Number),
    Str(String),
    Word(String),
}

/// The model of an expression token.
pub enum ETok {
    LParen,
    RParen,
    And,
    Or,
    Not,
    Op(Seq<char>),
    Num(NumVal),
    Str(Seq<char>),
    Word(Seq<char>),
}

pub open spec fn etok_view(t: ExprToken) -> ETok {
    match t {
        ExprToken::LParen => ETok::LParen,
        ExprToken::RParen => ETok::RParen,
        ExprToken::And => ETok::And,
        ExprToken::Or => ETok::Or,
        ExprToken::Not => ETok::Not,
        ExprToken::Op(s) => ETok::Op(s@),
        ExprToken::Num(n) => ETok::Num(num_view(n)),
        ExprToken::Str(s) => ETok::Str(s@),
        ExprToken::Word(s) => ETok::Word(s@),
    }
}

pub open spec fn etoks_view(v: Seq<ExprToken>) -> Seq<ETok> {
    v.map_values(|t: ExprToken| etok_view(t))
}

/// Numbers among the tokens are normalised.
pub open spec fn etoks_wf(v: Seq<ETok>) -> bool {
    forall|i: int| 0 <= i < v.len() ==> (#[trigger] v[i] matches ETok::Num(n) ==> num_wf(n))
}

// ---------------------------------------------------------------------------
// Lexing
// ---------------------------------------------------------------------------

/// A word boundary (`\b`) lies at position `p` of `t`.
pub open spec fn word_boundary(t: Seq<char>, p: int) -> bool {
    let before = 0 < p <= t.len() && is_word(t[p - 1]);
    let after = 0 <= p < t.len() && is_word(t[p]);
    before != after
}

/// `\bkw\b` (case-insensitive) at `p`.
pub open spec fn keyword_at(t: Seq<char>, p: int, kw: Seq<char>) -> bool {
    word_boundary(t, p) && kw_at(t, p, kw) && word_boundary(t, p + kw.len())
}

/// Length of the comparison operator at `p`, trying
/// `==`, `!=`, `<>`, `<=`, `>=`, `<`, `>` in this order.
pub open spec fn op_len_at(t: Seq<char>, p: int) -> int {
    if 0 <= p && p + 1 < t.len() && (
        (t[p] == '=' && t[p + 1] == '=') || (t[p] == '!' && t[p + 1] == '=')
        || (t[p] == '<' && t[p + 1] == '>') || (t[p] == '<' && t[p + 1] == '=')
        || (t[p] == '>' && t[p + 1] == '='))
    {
        2
    } else if 0 <= p < t.len() && (t[p] == '<' || t[p] == '>') {
        1
    } else {
        0
    }
}

/// End of the run of `\d` characters that starts at `p`.
pub open spec fn udigit_end(t: Seq<char>, p: int) -> int
    decreases t.len() - p,
{
    if 0 <= p < t.len() && is_digit(t[p]) {
        udigit_end(t, p + 1)
    } else {
        p
    }
}

/// End of `-?\d+(?:\.\d+)?` at `p`, if it matches there.
pub open spec fn num_end_at(t: Seq<char>, p: int) -> Option<int> {
    let q = if 0 <= p < t.len() && t[p] == '-' { p + 1 } else { p };
    let d = udigit_end(t, q);
    if d == q {
        None
    } else if d < t.len() && t[d] == '.' && udigit_end(t, d + 1) > d + 1 {
        Some(udigit_end(t, d + 1))
    } else {
        Some(d)
    }
}

/// First index at or after `j` that holds `c`, or the end of `t`.
pub open spec fn next_char(t: Seq<char>, j: int, c: char) -> int
    decreases t.len() - j,
{
    if j < 0 || j >= t.len() {
        t.len() as int
    } else if t[j] == c {
        j
    } else {
        next_char(t, j + 1, c)
    }
}

/// End of `"[^"]*"|'[^']*'` at `p`, if it matches there.
pub open spec fn str_end_at(t: Seq<char>, p: int) -> Option<int> {
    if 0 <= p < t.len() && (t[p] == '"' || t[p] == '\'') && next_char(t, p + 1, t[p]) < t.len() {
        Some(next_char(t, p + 1, t[p]) + 1)
    } else {
        None
    }
}

/// A character that a bare word may hold (`[^\s=!<>()]`).
pub open spec fn is_word_piece(c: char) -> bool {
    !is_ws(c) && c != '=' && c != '!' && c != '<' && c != '>' && c != '(' && c != ')'
}

/// End of the run of word pieces that starts at `p`.
pub open spec fn piece_end(t: Seq<char>, p: int) -> int
    decreases t.len() - p,
{
    if 0 <= p < t.len() && is_word_piece(t[p]) {
        piece_end(t, p + 1)
    } else {
        p
    }
}

pub open spec fn kw_and() -> Seq<char> {
    seq!['a', 'n', 'd']
}

pub open spec fn kw_or() -> Seq<char> {
    seq!['o', 'r']
}

pub open spec fn kw_not() -> Seq<char> {
    seq!['n', 'o', 't']
}

/// The first alternative that matches at `p`: the token it yields (none
/// for a number that does not parse) and where the match ends.
pub open spec fn alt_at(t: Seq<char>, p: int) -> Option<(Option<ETok>, int)> {
    if !(0 <= p < t.len()) {
        None
    } else if t[p] == '(' {
        Some((Some(ETok::LParen), p + 1))
    } else if t[p] == ')' {
        Some((Some(ETok::RParen), p + 1))
    } else if keyword_at(t, p, kw_and()) {
        Some((Some(ETok::And), p + 3))
    } else if keyword_at(t, p, kw_or()) {
        Some((Some(ETok::Or), p + 2))
    } else if keyword_at(t, p, kw_not()) {
        Some((Some(ETok::Not), p + 3))
    } else if op_len_at(t, p) > 0 {
        Some((Some(ETok::Op(t.subrange(p, p + op_len_at(t, p)))), p + op_len_at(t, p)))
    } else if num_end_at(t, p).is_some() {
        let e = num_end_at(t, p).unwrap();
        Some((
            match parse_float(t.subrange(p, e)) {
                Some(n) => Some(ETok::Num(n)),
                None => None,
            },
            e,
        ))
    } else if str_end_at(t, p).is_some() {
        let e = str_end_at(t, p).unwrap();
        Some((Some(ETok::Str(t.subrange(p + 1, e - 1))), e))
    } else if piece_end(t, p) > p {
        let e = piece_end(t, p);
        let w = t.subrange(p, e);
        Some((
            Some(
                match parse_float(w) {
                    Some(n) => ETok::Num(n),
                    None => ETok::Word(w),
                },
            ),
            e,
        ))
    } else {
        None
    }
}

/// The tokens of `t[p..]`: at each position the first alternative that
/// matches is taken; a position where none matches is skipped.
pub open spec fn etoks_from(t: Seq<char>, p: int) -> Seq<ETok>
    decreases t.len() - p,
{
    if p < 0 || p >= t.len() {
        seq![]
    } else {
        match alt_at(t, p) {
            Some((tok, e)) => if p < e <= t.len() {
                match tok {
                    Some(x) => seq![x] + etoks_from(t, e),
                    None => etoks_from(t, e),
                }
            } else {
                seq![]
            },
            None => etoks_from(t, p + 1),
        }
    }
}

/// The tokens of the expression `t`.
pub open spec fn expr_tokens(t: Seq<char>) -> Seq<ETok> {
    etoks_from(t, 0)
}

fn word_boundary_exec(t: &[char], p: usize) -> (r: bool)
    requires
        p <= t.len(),
    ensures
        r == word_boundary(t@, p as int),
{
    let before = p > 0 && is_word_char(t[p - 1]);
    let after = p < t.len() && is_word_char(t[p]);
    before != after
}

fn keyword_at_exec(t: &[char], p: usize, kw: &[char]) -> (r: bool)
    requires
        p <= t.len(),
    ensures
        r == keyword_at(t@, p as int, kw@),
{
    word_boundary_exec(t, p) && kw_at_exec(t, p, kw) && word_boundary_exec(t, p + kw.len())
}

fn op_len_exec(t: &[char], p: usize) -> (r: usize)
    requires
        p < t.len(),
    ensures
        r as int == op_len_at(t@, p as int),
{
    if p + 1 < t.len() && ((t[p] == '=' && t[p + 1] == '=') || (t[p] == '!' && t[p + 1] == '=')
        || (t[p] == '<' && t[p + 1] == '>') || (t[p] == '<' && t[p + 1] == '=')
        || (t[p] == '>' && t[p + 1] == '='))
    {
        2
    } else if t[p] == '<' || t[p] == '>' {
        1
    } else {
        0
    }
}

fn udigit_end_exec(t: &[char], p: usize) -> (r: usize)
    requires
        p <= t.len(),
    ensures
        r as int == udigit_end(t@, p as int),
        p <= r <= t.len(),
{
    let mut i = p;
    while i < t.len() && is_digit_char(t[i])
        invariant
            p <= i <= t.len(),
            udigit_end(t@, i as int) == udigit_end(t@, p as int),
        decreases t.len() - i,
    {
        i += 1;
    }
    i
}

fn num_end_exec(t: &[char], p: usize) -> (r: Option<usize>)
    requires
        p < t.len(),
    ensures
        match r {
            Some(e) => num_end_at(t@, p as int) == Some(e as int) && p < e <= t.len(),
            None => num_end_at(t@, p as int).is_none(),
        },
{
    let q = if t[p] == '-' { p + 1 } else { p };
    let d = udigit_end_exec(t, q);
    if d == q {
        return None;
    }
    if d < t.len() && t[d] == '.' {
        let f = udigit_end_exec(t, d + 1);
        if f > d + 1 {
            return Some(f);
        }
    }
    Some(d)
}

fn next_char_exec(t: &[char], j: usize, c: char) -> (r: usize)
    requires
        j <= t.len(),
    ensures
        r as int == next_char(t@, j as int, c),
        j <= r <= t.len(),
{
    let mut k = j;
    while k < t.len() && t[k] != c
        invariant
            j <= k <= t.len(),
            next_char(t@, k as int, c) == next_char(t@, j as int, c),
        decreases t.len() - k,
    {
        k += 1;
    }
    k
}

fn str_end_exec(t: &[char], p: usize) -> (r: Option<usize>)
    requires
        p < t.len(),
    ensures
        match r {
            Some(e) => str_end_at(t@, p as int) == Some(e as int) && p + 2 <= e <= t.len(),
            None => str_end_at(t@, p as int).is_none(),
        },
{
    if t[p] == '"' || t[p] == '\'' {
        let c = next_char_exec(t, p + 1, t[p]);
        if c < t.len() {
            return Some(c + 1);
        }
    }
    None
}

fn is_word_piece_exec(c: char) -> (r: bool)
    ensures
        r == is_word_piece(c),
{
    !is_whitespace(c) && c != '=' && c != '!' && c != '<' && c != '>' && c != '(' && c != ')'
}

fn piece_end_exec(t: &[char], p: usize) -> (r: usize)
    requires
        p <= t.len(),
    ensures
        r as int == piece_end(t@, p as int),
        p <= r <= t.len(),
{
    let mut i = p;
    while i < t.len() && is_word_piece_exec(t[i])
        invariant
            p <= i <= t.len(),
            piece_end(t@, i as int) == piece_end(t@, p as int),
        decreases t.len() - i,
    {
        i += 1;
    }
    i
}

/// Executable form of [`alt_at`].
fn alt_at_exec(t: &[char], p: usize) -> (r: Option<(Option<ExprToken>, usize)>)
    requires
        p < t.len(),
    ensures
        match r {
            Some((tok, e)) => {
                &&& alt_at(t@, p as int).is_some()
                &&& alt_at(t@, p as int).unwrap().1 == e as int
                &&& p < e <= t.len()
                &&& match tok {
                    Some(x) => alt_at(t@, p as int).unwrap().0 == Some(etok_view(x))
                        && (etok_view(x) matches ETok::Num(n) ==> num_wf(n)),
                    None => alt_at(t@, p as int).unwrap().0.is_none(),
                }
            },
            None => alt_at(t@, p as int).is_none(),
        },
{
    if t[p] == '(' {
        return Some((Some(ExprToken::LParen), p + 1));
    }
    if t[p] == ')' {
        return Some((Some(ExprToken::RParen), p + 1));
    }
    if keyword_at_exec(t, p, &['a', 'n', 'd']) {
        return Some((Some(ExprToken::And), p + 3));
    }
    if keyword_at_exec(t, p, &['o', 'r']) {
        return Some((Some(ExprToken::Or), p + 2));
    }
    if keyword_at_exec(t, p, &['n', 'o', 't']) {
        return Some((Some(ExprToken::Not), p + 3));
    }
    let ol = op_len_exec(t, p);
    if ol > 0 {
        let op = string_of(t, p, p + ol);
        return Some((Some(ExprToken::Op(op)), p + ol));
    }
    match num_end_exec(t, p) {
        Some(e) => {
            let text = crate::lexer::copy_range(t, p, e);
            let tok = match parse_number(text.as_slice()) {
                Some(n) => Some(ExprToken::Num(n)),
                None => None,
            };
            return Some((tok, e));
        },
        None => {},
    }
    match str_end_exec(t, p) {
        Some(e) => {
            let inner = string_of(t, p + 1, e - 1);
            return Some((Some(ExprToken::Str(inner)), e));
        },
        None => {},
    }
    let e = piece_end_exec(t, p);
    if e > p {
        let text = crate::lexer::copy_range(t, p, e);
        let tok = match parse_number(text.as_slice()) {
            Some(n) => ExprToken::Num(n),
            None => ExprToken::Word(string_of_all(text.as_slice())),
        };
        return Some((Some(tok), e));
    }
    None
}

proof fn lemma_etoks_push(v: Seq<ExprToken>, x: ExprToken)
    ensures
        etoks_view(v.push(x)) == etoks_view(v).push(etok_view(x)),
{
    assert(etoks_view(v.push(x)) =~= etoks_view(v).push(etok_view(x)));
}

/// The tokens of the expression `t` (see [`expr_tokens`]).
pub fn tokenise_expr(t: &[char]) -> (r: Vec<ExprToken>)
    ensures
        etoks_view(r@) == expr_tokens(t@),
        etoks_wf(etoks_view(r@)),
{
    let mut out: Vec<ExprToken> = Vec::new();
    let mut p: usize = 0;
    while p < t.len()
        invariant
            p <= t.len(),
            etoks_view(out@) + etoks_from(t@, p as int) == expr_tokens(t@),
            etoks_wf(etoks_view(out@)),
        decreases t.len() - p,
    {
        let ghost before = etoks_view(out@);
        match alt_at_exec(t, p) {
            Some((tok, e)) => {
                match tok {
                    Some(x) => {
                        proof {
                            lemma_etoks_push(out@, x);
                        }
                        out.push(x);
                        assert(etoks_view(out@) + etoks_from(t@, e as int) =~= before + etoks_from(t@, p as int));
                    },
                    None => {},
                }
                p = e;
            },
            None => {
                p += 1;
            },
        }
    }
    assert(etoks_view(out@) + etoks_from(t@, p as int) =~= etoks_view(out@));
    out
}

// ---------------------------------------------------------------------------
// Values and comparison
// ---------------------------------------------------------------------------

/// A value: a number, or the text of a quoted string or bare word.
pub enum Val {
    Num(NumVal),
    Str(Seq<char>),
}

/// `a` sorts before `b` (by character codes, as `str` ordering does).
pub open spec fn seq_lt(a: Seq<char>, b: Seq<char>) -> bool
    decreases a.len(),
{
    if a.len() == 0 {
        b.len() > 0
    } else if b.len() == 0 {
        false
    } else if a[0] != b[0] {
        (a[0] as u32) < (b[0] as u32)
    } else {
        seq_lt(a.drop_first(), b.drop_first())
    }
}

/// The text a value is compared by when either side is not a number:
/// a number as written out, a string trimmed and lowercased.
pub open spec fn val_text(v: Val) -> Seq<char> {
    match v {
        Val::Num(n) => num_text(n),
        Val::Str(s) => lowercase(trim(s)),
    }
}

pub open spec fn op_eq() -> Seq<char> {
    seq!['=', '=']
}

pub open spec fn op_ne() -> Seq<char> {
    seq!['!', '=']
}

pub open spec fn op_ne2() -> Seq<char> {
    seq!['<', '>']
}

pub open spec fn op_lt() -> Seq<char> {
    seq!['<']
}

pub open spec fn op_le() -> Seq<char> {
    seq!['<', '=']
}

pub open spec fn op_gt() -> Seq<char> {
    seq!['>']
}

pub open spec fn op_ge() -> Seq<char> {
    seq!['>', '=']
}

/// `l op r`: numerically when both are numbers (NaN is unordered and
/// unequal to everything), otherwise on the texts of the values.
pub open spec fn compare(l: Val, op: Seq<char>, r: Val) -> Option<bool> {
    match (l, r) {
        (Val::Num(a), Val::Num(b)) => {
            let o = num_order(a, b);
            if op == op_eq() {
                Some(o == Some(0int))
            } else if op == op_ne() || op == op_ne2() {
                Some(o != Some(0int))
            } else if op == op_lt() {
                Some(o == Some(-1int))
            } else if op == op_le() {
                Some(o == Some(-1int) || o == Some(0int))
            } else if op == op_gt() {
                Some(o == Some(1int))
            } else if op == op_ge() {
                Some(o == Some(1int) || o == Some(0int))
            } else {
                None
            }
        },
        _ => {
            let a = val_text(l);
            let b = val_text(r);
            if op == op_eq() {
                Some(a == b)
            } else if op == op_ne() || op == op_ne2() {
                Some(a != b)
            } else if op == op_lt() {
                Some(seq_lt(a, b))
            } else if op == op_le() {
                Some(!seq_lt(b, a))
            } else if op == op_gt() {
                Some(seq_lt(b, a))
            } else if op == op_ge() {
                Some(!seq_lt(a, b))
            } else {
                None
            }
        },
    }
}

/// A bare value is true when it is a non-zero number or a non-blank text.
pub open spec fn val_truthy(v: Val) -> bool {
    match v {
        Val::Num(n) => num_truthy(n),
        Val::Str(s) => trim(s).len() > 0,
    }
}

// ---------------------------------------------------------------------------
// Three-valued logic
// ---------------------------------------------------------------------------

/// `a OR b` where `None` is unknown: true wins over unknown.
pub open spec fn or_tri(a: Option<bool>, b: Option<bool>) -> Option<bool> {
    if a == Some(true) || b == Some(true) {
        Some(true)
    } else if a == Some(false) && b == Some(false) {
        Some(false)
    } else {
        None
    }
}

/// `a AND b` where `None` is unknown: false wins over unknown.
pub open spec fn and_tri(a: Option<bool>, b: Option<bool>) -> Option<bool> {
    if a == Some(false) || b == Some(false) {
        Some(false)
    } else if a == Some(true) && b == Some(true) {
        Some(true)
    } else {
        None
    }
}

fn or_tri_exec(a: Option<bool>, b: Option<bool>) -> (r: Option<bool>)
    ensures
        r == or_tri(a, b),
{
    match (a, b) {
        (Some(true), _) | (_, Some(true)) => Some(true),
        (Some(false), Some(false)) => Some(false),
        _ => None,
    }
}

fn and_tri_exec(a: Option<bool>, b: Option<bool>) -> (r: Option<bool>)
    ensures
        r == and_tri(a, b),
{
    match (a, b) {
        (Some(false), _) | (_, Some(false)) => Some(false),
        (Some(true), Some(true)) => Some(true),
        _ => None,
    }
}

// ---------------------------------------------------------------------------
// Parsing
// ---------------------------------------------------------------------------

/// Why a condition could not be parsed.
pub enum EErr {
    MissingParen,
    UnexpectedEnd,
    UnexpectedToken(ETok),
}

/// The token may stand where a value is expected.
pub open spec fn is_value_tok(t: ETok) -> bool {
    t matches ETok::Num(_) || t matches ETok::Str(_) || t matches ETok::Word(_)
}

pub open spec fn p_value(t: Seq<ETok>, pos: int) -> Result<(Val, int), EErr> {
    if pos < 0 || pos >= t.len() {
        Err(EErr::UnexpectedEnd)
    } else {
        match t[pos] {
            ETok::Num(n) => Ok((Val::Num(n), pos + 1)),
            ETok::Str(x) => Ok((Val::Str(x), pos + 1)),
            ETok::Word(x) => Ok((Val::Str(x), pos + 1)),
            other => Err(EErr::UnexpectedToken(other)),
        }
    }
}

/// `'(' cond ')' | value OP value | value` at `pos`.
pub open spec fn p_comparison(t: Seq<ETok>, pos: int) -> Result<(Option<bool>, int), EErr>
    decreases t.len() - pos, 0int,
{
    if 0 <= pos < t.len() && (t[pos] matches ETok::LParen) {
        match p_or(t, pos + 1) {
            Err(e) => Err(e),
            Ok((v, np)) => if np >= t.len() || !(t[np] matches ETok::RParen) {
                Err(EErr::MissingParen)
            } else {
                Ok((v, np + 1))
            },
        }
    } else {
        match p_value(t, pos) {
            Err(e) => Err(e),
            Ok((l, p1)) => if 0 <= p1 < t.len() && (t[p1] matches ETok::Op(_)) {
                match p_value(t, p1 + 1) {
                    Err(e) => Err(e),
                    Ok((r, p2)) => Ok((compare(l, t[p1]->Op_0, r), p2)),
                }
            } else {
                Ok((Some(val_truthy(l)), p1))
            },
        }
    }
}

/// `NOT not | comparison` at `pos`.
pub open spec fn p_not(t: Seq<ETok>, pos: int) -> Result<(Option<bool>, int), EErr>
    decreases t.len() - pos, 1int,
{
    if 0 <= pos < t.len() && (t[pos] matches ETok::Not) {
        match p_not(t, pos + 1) {
            Err(e) => Err(e),
            Ok((v, np)) => Ok((
                match v {
                    Some(b) => Some(!b),
                    None => None,
                },
                np,
            )),
        }
    } else {
        p_comparison(t, pos)
    }
}

/// `(AND not)*` at `p` after the left operand `l`.
pub open spec fn and_loop(t: Seq<ETok>, p: int, l: Option<bool>) -> Result<(Option<bool>, int), EErr>
    decreases t.len() - p, 2int,
{
    if 0 <= p < t.len() && (t[p] matches ETok::And) {
        match p_not(t, p + 1) {
            Err(e) => Err(e),
            Ok((r, p2)) => if p < p2 <= t.len() {
                and_loop(t, p2, and_tri(l, r))
            } else {
                Ok((and_tri(l, r), p2))
            },
        }
    } else {
        Ok((l, p))
    }
}

/// `not (AND not)*` at `pos`.
pub open spec fn p_and(t: Seq<ETok>, pos: int) -> Result<(Option<bool>, int), EErr>
    decreases t.len() - pos, 3int,
{
    match p_not(t, pos) {
        Err(e) => Err(e),
        Ok((l, p1)) => if pos <= p1 <= t.len() {
            and_loop(t, p1, l)
        } else {
            Ok((l, p1))
        },
    }
}

/// `(OR and)*` at `p` after the left operand `l`.
pub open spec fn or_loop(t: Seq<ETok>, p: int, l: Option<bool>) -> Result<(Option<bool>, int), EErr>
    decreases t.len() - p, 4int,
{
    if 0 <= p < t.len() && (t[p] matches ETok::Or) {
        match p_and(t, p + 1) {
            Err(e) => Err(e),
            Ok((r, p2)) => if p < p2 <= t.len() {
                or_loop(t, p2, or_tri(l, r))
            } else {
                Ok((or_tri(l, r), p2))
            },
        }
    } else {
        Ok((l, p))
    }
}

/// `and (OR and)*` at `pos`.
pub open spec fn p_or(t: Seq<ETok>, pos: int) -> Result<(Option<bool>, int), EErr>
    decreases t.len() - pos, 5int,
{
    match p_and(t, pos) {
        Err(e) => Err(e),
        Ok((l, p1)) => if pos <= p1 <= t.len() {
            or_loop(t, p1, l)
        } else {
            Ok((l, p1))
        },
    }
}

// ---------------------------------------------------------------------------
// Parser facts
// ---------------------------------------------------------------------------

/// An error names a token only where a value was expected and another
/// token stood.
pub open spec fn err_ok(r: Result<(Option<bool>, int), EErr>) -> bool {
    r matches Err(EErr::UnexpectedToken(x)) ==> !is_value_tok(x)
}

/// A successful parse from `pos` consumes at least one token.
pub open spec fn advances(r: Result<(Option<bool>, int), EErr>, pos: int, len: int) -> bool {
    r matches Ok((_, np)) ==> pos < np <= len
}

/// A successful loop from `p` ends at or after `p`.
pub open spec fn keeps(r: Result<(Option<bool>, int), EErr>, p: int, len: int) -> bool {
    r matches Ok((_, np)) ==> p <= np <= len
}

pub proof fn lemma_p_comparison(t: Seq<ETok>, pos: int)
    requires
        0 <= pos,
    ensures
        advances(p_comparison(t, pos), pos, t.len() as int),
        err_ok(p_comparison(t, pos)),
    decreases t.len() - pos, 0int,
{
    if 0 <= pos < t.len() && (t[pos] matches ETok::LParen) {
        lemma_p_or(t, pos + 1);
    }
}

pub proof fn lemma_p_not(t: Seq<ETok>, pos: int)
    requires
        0 <= pos,
    ensures
        advances(p_not(t, pos), pos, t.len() as int),
        err_ok(p_not(t, pos)),
    decreases t.len() - pos, 1int,
{
    if 0 <= pos < t.len() && (t[pos] matches ETok::Not) {
        lemma_p_not(t, pos + 1);
    } else {
        lemma_p_comparison(t, pos);
    }
}

pub proof fn lemma_and_loop(t: Seq<ETok>, p: int, l: Option<bool>)
    requires
        0 <= p <= t.len(),
    ensures
        keeps(and_loop(t, p, l), p, t.len() as int),
        err_ok(and_loop(t, p, l)),
    decreases t.len() - p, 2int,
{
    if 0 <= p < t.len() && (t[p] matches ETok::And) {
        lemma_p_not(t, p + 1);
        if let Ok((r, p2)) = p_not(t, p + 1) {
            lemma_and_loop(t, p2, and_tri(l, r));
        }
    }
}

pub proof fn lemma_p_and(t: Seq<ETok>, pos: int)
    requires
        0 <= pos,
    ensures
        advances(p_and(t, pos), pos, t.len() as int),
        err_ok(p_and(t, pos)),
    decreases t.len() - pos, 3int,
{
    lemma_p_not(t, pos);
    if let Ok((l, p1)) = p_not(t, pos) {
        lemma_and_loop(t, p1, l);
    }
}

pub proof fn lemma_or_loop(t: Seq<ETok>, p: int, l: Option<bool>)
    requires
        0 <= p <= t.len(),
    ensures
        keeps(or_loop(t, p, l), p, t.len() as int),
        err_ok(or_loop(t, p, l)),
    decreases t.len() - p, 4int,
{
    if 0 <= p < t.len() && (t[p] matches ETok::Or) {
        lemma_p_and(t, p + 1);
        if let Ok((r, p2)) = p_and(t, p + 1) {
            lemma_or_loop(t, p2, or_tri(l, r));
        }
    }
}

pub proof fn lemma_p_or(t: Seq<ETok>, pos: int)
    requires
        0 <= pos,
    ensures
        advances(p_or(t, pos), pos, t.len() as int),
        err_ok(p_or(t, pos)),
    decreases t.len() - pos, 5int,
{
    lemma_p_and(t, pos);
    if let Ok((l, p1)) = p_and(t, pos) {
        lemma_or_loop(t, p1, l);
    }
}

// ---------------------------------------------------------------------------
// Errors
// ---------------------------------------------------------------------------

/// How a non-value token is written in an error message.
pub open spec fn tok_debug(t: ETok) -> Seq<char> {
    match t {
        ETok::LParen => seq!['L', 'P', 'a', 'r', 'e', 'n'],
        ETok::RParen => seq!['R', 'P', 'a', 'r', 'e', 'n'],
        ETok::And => seq!['A', 'n', 'd'],
        ETok::Or => seq!['O', 'r'],
        ETok::Not => seq!['N', 'o', 't'],
        ETok::Op(s) => seq!['O', 'p', '(', '"'] + s + seq!['"', ')'],
        _ => seq![],
    }
}

/// The message of a parse error.
pub open spec fn err_message(e: EErr) -> Seq<char> {
    match e {
        EErr::MissingParen => seq!['m', 'i', 's', 's', 'i', 'n', 'g', ' ', '\'', ')', '\''],
        EErr::UnexpectedEnd => seq!['u', 'n', 'e', 'x', 'p', 'e', 'c', 't', 'e', 'd', ' ', 'e', 'n', 'd', ' ', 'o', 'f', ' ', 'c', 'o', 'n', 'd', 'i', 't', 'i', 'o', 'n'],
        EErr::UnexpectedToken(t) => seq!['u', 'n', 'e', 'x', 'p', 'e', 'c', 't', 'e', 'd', ' ', 't', 'o', 'k', 'e', 'n', ' '] + tok_debug(t),
    }
}

/// A parse error, carrying its message.
pub struct EvalError(pub String);

fn err_missing_paren() -> (r: EvalError)
    ensures
        r.0@ == err_message(EErr::MissingParen),
{
    EvalError(string_of_all(&['m', 'i', 's', 's', 'i', 'n', 'g', ' ', '\'', ')', '\'']))
}

fn err_unexpected_end() -> (r: EvalError)
    ensures
        r.0@ == err_message(EErr::UnexpectedEnd),
{
    EvalError(string_of_all(&['u', 'n', 'e', 'x', 'p', 'e', 'c', 't', 'e', 'd', ' ', 'e', 'n', 'd', ' ', 'o', 'f', ' ', 'c', 'o', 'n', 'd', 'i', 't', 'i', 'o', 'n']))
}

fn err_unexpected_token(t: &ExprToken) -> (r: EvalError)
    requires
        !is_value_tok(etok_view(*t)),
    ensures
        r.0@ == err_message(EErr::UnexpectedToken(etok_view(*t))),
{
    let mut m = string_of_all(&['u', 'n', 'e', 'x', 'p', 'e', 'c', 't', 'e', 'd', ' ', 't', 'o', 'k', 'e', 'n', ' ']);
    match t {
        ExprToken::LParen => push_chars(&mut m, &['L', 'P', 'a', 'r', 'e', 'n']),
        ExprToken::RParen => push_chars(&mut m, &['R', 'P', 'a', 'r', 'e', 'n']),
        ExprToken::And => push_chars(&mut m, &['A', 'n', 'd']),
        ExprToken::Or => push_chars(&mut m, &['O', 'r']),
        ExprToken::Not => push_chars(&mut m, &['N', 'o', 't']),
        ExprToken::Op(s) => {
            push_chars(&mut m, &['O', 'p', '(', '"']);
            push_str(&mut m, s.as_str());
            push_chars(&mut m, &['"', ')']);
            assert(m@ =~= seq!['u', 'n', 'e', 'x', 'p', 'e', 'c', 't', 'e', 'd', ' ', 't', 'o', 'k', 'e', 'n', ' '] + (seq!['O', 'p', '(', '"'] + s@ + seq!['"', ')']));
        },
        _ => {},
    }
    EvalError(m)
}

// ---------------------------------------------------------------------------
// Executable values
// ---------------------------------------------------------------------------

pub enum Value {
    Num(Number),
    Str(String),
}

pub open spec fn value_view(v: Value) -> Val {
    match v {
        Value::Num(n) => Val::Num(num_view(n)),
        Value::Str(s) => Val::Str(s@),
    }
}

pub open spec fn value_wf(v: Value) -> bool {
    v matches Value::Num(n) ==> num_wf(num_view(n))
}

fn clone_number(n: &Number) -> (r: Number)
    ensures
        num_view(r) == num_view(*n),
{
    match n {
        Number::Nan => Number::Nan,
        Number::Inf { neg } => Number::Inf { neg: *neg },
        Number::Fin { neg, digits, exp } => {
            let d = digits.clone();
            assert(d@ =~= digits@);
            Number::Fin { neg: *neg, digits: d, exp: *exp }
        },
    }
}

pub(crate) fn chars_equal(a: &[char], b: &[char]) -> (r: bool)
    ensures
        r == (a@ == b@),
{
    if a.len() != b.len() {
        return false;
    }
    let mut i: usize = 0;
    while i < a.len()
        invariant
            i <= a.len(),
            a.len() == b.len(),
            forall|j: int| 0 <= j < i ==> a@[j] == b@[j],
        decreases a.len() - i,
    {
        if a[i] != b[i] {
            return false;
        }
        i += 1;
    }
    assert(a@ =~= b@);
    true
}

fn seq_lt_exec(a: &[char], b: &[char]) -> (r: bool)
    ensures
        r == seq_lt(a@, b@),
{
    let mut i: usize = 0;
    assert(a@.subrange(0, a@.len() as int) =~= a@);
    assert(b@.subrange(0, b@.len() as int) =~= b@);
    while i < a.len() && i < b.len()
        invariant
            i <= a.len(),
            i <= b.len(),
            seq_lt(a@.subrange(i as int, a@.len() as int), b@.subrange(i as int, b@.len() as int))
                == seq_lt(a@, b@),
        decreases a.len() - i,
    {
        let ghost sa = a@.subrange(i as int, a@.len() as int);
        let ghost sb = b@.subrange(i as int, b@.len() as int);
        assert(sa[0] == a@[i as int]);
        assert(sb[0] == b@[i as int]);
        if a[i] != b[i] {
            return (a[i] as u32) < (b[i] as u32);
        }
        assert(sa.drop_first() =~= a@.subrange(i + 1, a@.len() as int));
        assert(sb.drop_first() =~= b@.subrange(i + 1, b@.len() as int));
        i += 1;
    }
    i == a.len() && i < b.len()
}

/// The text of a value for comparison against a non-number.
fn value_text(v: &Value) -> (r: Vec<char>)
    requires
        value_wf(*v),
    ensures
        r@ == val_text(value_view(*v)),
{
    match v {
        Value::Num(n) => {
            let t = number_text(n);
            chars_of(t.as_str())
        },
        Value::Str(s) => {
            let t = trim_string(s.as_str());
            let l = to_lower(t.as_str());
            chars_of(l.as_str())
        },
    }
}

/// Executable form of [`compare`].
fn compare_exec(l: &Value, op: &String, r: &Value) -> (res: Option<bool>)
    requires
        value_wf(*l),
        value_wf(*r),
    ensures
        res == compare(value_view(*l), op@, value_view(*r)),
{
    let o = chars_of(op.as_str());
    let s_eq: &[char] = &['=', '='];
    let s_ne: &[char] = &['!', '='];
    let s_ne2: &[char] = &['<', '>'];
    let s_lt: &[char] = &['<'];
    let s_le: &[char] = &['<', '='];
    let s_gt: &[char] = &['>'];
    let s_ge: &[char] = &['>', '='];
    assert(s_eq@ =~= op_eq());
    assert(s_ne@ =~= op_ne());
    assert(s_ne2@ =~= op_ne2());
    assert(s_lt@ =~= op_lt());
    assert(s_le@ =~= op_le());
    assert(s_gt@ =~= op_gt());
    assert(s_ge@ =~= op_ge());
    let is_eq = chars_equal(o.as_slice(), s_eq);
    let is_ne = chars_equal(o.as_slice(), s_ne) || chars_equal(o.as_slice(), s_ne2);
    let is_lt = chars_equal(o.as_slice(), s_lt);
    let is_le = chars_equal(o.as_slice(), s_le);
    let is_gt = chars_equal(o.as_slice(), s_gt);
    let is_ge = chars_equal(o.as_slice(), s_ge);
    match (l, r) {
        (Value::Num(a), Value::Num(b)) => {
            let ord = number_order(a, b);
            if is_eq {
                Some(ord == Some(0i8))
            } else if is_ne {
                Some(ord != Some(0i8))
            } else if is_lt {
                Some(ord == Some(-1i8))
            } else if is_le {
                Some(ord == Some(-1i8) || ord == Some(0i8))
            } else if is_gt {
                Some(ord == Some(1i8))
            } else if is_ge {
                Some(ord == Some(1i8) || ord == Some(0i8))
            } else {
                None
            }
        },
        _ => {
            let a = value_text(l);
            let b = value_text(r);
            if is_eq {
                Some(chars_equal(a.as_slice(), b.as_slice()))
            } else if is_ne {
                Some(!chars_equal(a.as_slice(), b.as_slice()))
            } else if is_lt {
                Some(seq_lt_exec(a.as_slice(), b.as_slice()))
            } else if is_le {
                Some(!seq_lt_exec(b.as_slice(), a.as_slice()))
            } else if is_gt {
                Some(seq_lt_exec(b.as_slice(), a.as_slice()))
            } else if is_ge {
                Some(!seq_lt_exec(a.as_slice(), b.as_slice()))
            } else {
                None
            }
        },
    }
}

/// Executable form of [`val_truthy`].
fn value_truthy(v: &Value) -> (r: bool)
    requires
        value_wf(*v),
    ensures
        r == val_truthy(value_view(*v)),
{
    match v {
        Value::Num(n) => num_is_truthy(n),
        Value::Str(s) => {
            let t = trim_string(s.as_str());
            !t.as_str().is_empty()
        },
    }
}

// ---------------------------------------------------------------------------
// Executable parser
// ---------------------------------------------------------------------------

/// The executable result matches the spec result.
pub open spec fn res_matches(
    r: Result<(Option<bool>, usize), EvalError>,
    s: Result<(Option<bool>, int), EErr>,
) -> bool {
    match r {
        Ok((v, np)) => s == Ok::<(Option<bool>, int), EErr>((v, np as int)),
        Err(e) => s matches Err(se) && e.0@ == err_message(se),
    }
}

fn parse_value(tokens: &Vec<ExprToken>, pos: usize) -> (r: Result<(Value, usize), EvalError>)
    requires
        etoks_wf(etoks_view(tokens@)),
    ensures
        match r {
            Ok((v, np)) => p_value(etoks_view(tokens@), pos as int) == Ok::<(Val, int), EErr>((value_view(v), np as int))
                && value_wf(v),
            Err(e) => p_value(etoks_view(tokens@), pos as int) matches Err(se) && e.0@ == err_message(se),
        },
{
    let ghost tv = etoks_view(tokens@);
    if pos >= tokens.len() {
        return Err(err_unexpected_end());
    }
    assert(tv[pos as int] == etok_view(tokens@[pos as int]));
    match &tokens[pos] {
        ExprToken::Num(n) => Ok((Value::Num(clone_number(n)), pos + 1)),
        ExprToken::Str(x) => Ok((Value::Str(x.clone()), pos + 1)),
        ExprToken::Word(x) => Ok((Value::Str(x.clone()), pos + 1)),
        other => Err(err_unexpected_token(other)),
    }
}

fn parse_comparison(tokens: &Vec<ExprToken>, pos: usize) -> (r: Result<(Option<bool>, usize), EvalError>)
    requires
        etoks_wf(etoks_view(tokens@)),
        pos <= tokens@.len(),
    ensures
        res_matches(r, p_comparison(etoks_view(tokens@), pos as int)),
    decreases tokens@.len() - pos, 0int,
{
    let ghost tv = etoks_view(tokens@);
    if pos < tokens.len() {
        assert(tv[pos as int] == etok_view(tokens@[pos as int]));
    }
    if pos < tokens.len() && matches!(tokens[pos], ExprToken::LParen) {
        match parse_or(tokens, pos + 1) {
            Err(e) => return Err(e),
            Ok((val, new_pos)) => {
                if new_pos < tokens.len() {
                    assert(tv[new_pos as int] == etok_view(tokens@[new_pos as int]));
                }
                if new_pos >= tokens.len() || !matches!(tokens[new_pos], ExprToken::RParen) {
                    return Err(err_missing_paren());
                }
                return Ok((val, new_pos + 1));
            },
        }
    }
    let (lhs, p1) = match parse_value(tokens, pos) {
        Err(e) => return Err(e),
        Ok(x) => x,
    };
    if p1 < tokens.len() {
        assert(tv[p1 as int] == etok_view(tokens@[p1 as int]));
        match &tokens[p1] {
            ExprToken::Op(op) => {
                let (rhs, p2) = match parse_value(tokens, p1 + 1) {
                    Err(e) => return Err(e),
                    Ok(x) => x,
                };
                return Ok((compare_exec(&lhs, op, &rhs), p2));
            },
            _ => {},
        }
    }
    Ok((Some(value_truthy(&lhs)), p1))
}

fn parse_not(tokens: &Vec<ExprToken>, pos: usize) -> (r: Result<(Option<bool>, usize), EvalError>)
    requires
        etoks_wf(etoks_view(tokens@)),
        pos <= tokens@.len(),
    ensures
        res_matches(r, p_not(etoks_view(tokens@), pos as int)),
    decreases tokens@.len() - pos, 1int,
{
    let ghost tv = etoks_view(tokens@);
    if pos < tokens.len() {
        assert(tv[pos as int] == etok_view(tokens@[pos as int]));
    }
    if pos < tokens.len() && matches!(tokens[pos], ExprToken::Not) {
        match parse_not(tokens, pos + 1) {
            Err(e) => return Err(e),
            Ok((val, new_pos)) => {
                return Ok((
                    match val {
                        Some(v) => Some(!v),
                        None => None,
                    },
                    new_pos,
                ));
            },
        }
    }
    parse_comparison(tokens, pos)
}

fn parse_and(tokens: &Vec<ExprToken>, pos: usize) -> (r: Result<(Option<bool>, usize), EvalError>)
    requires
        etoks_wf(etoks_view(tokens@)),
        pos <= tokens@.len(),
    ensures
        res_matches(r, p_and(etoks_view(tokens@), pos as int)),
    decreases tokens@.len() - pos, 3int,
{
    let ghost tv = etoks_view(tokens@);
    proof {
        lemma_p_not(tv, pos as int);
    }
    let (mut left, mut p) = match parse_not(tokens, pos) {
        Err(e) => return Err(e),
        Ok(x) => x,
    };
    let ghost l0 = left;
    let ghost p0 = p;
    proof {
        lemma_and_loop(tv, p as int, left);
    }
    while p < tokens.len() && matches!(tokens[p], ExprToken::And)
        invariant
            tv == etoks_view(tokens@),
            etoks_wf(tv),
            pos < p0 <= p <= tokens@.len(),
            p_and(tv, pos as int) == and_loop(tv, p0 as int, l0),
            and_loop(tv, p as int, left) == and_loop(tv, p0 as int, l0),
        decreases tokens@.len() - p,
    {
        assert(tv[p as int] == etok_view(tokens@[p as int]));
        proof {
            lemma_p_not(tv, p + 1);
        }
        let (right, np) = match parse_not(tokens, p + 1) {
            Err(e) => return Err(e),
            Ok(x) => x,
        };
        left = and_tri_exec(left, right);
        p = np;
    }
    if p < tokens.len() {
        assert(tv[p as int] == etok_view(tokens@[p as int]));
    }
    Ok((left, p))
}

fn parse_or(tokens: &Vec<ExprToken>, pos: usize) -> (r: Result<(Option<bool>, usize), EvalError>)
    requires
        etoks_wf(etoks_view(tokens@)),
        pos <= tokens@.len(),
    ensures
        res_matches(r, p_or(etoks_view(tokens@), pos as int)),
    decreases tokens@.len() - pos, 5int,
{
    let ghost tv = etoks_view(tokens@);
    proof {
        lemma_p_and(tv, pos as int);
    }
    let (mut left, mut p) = match parse_and(tokens, pos) {
        Err(e) => return Err(e),
        Ok(x) => x,
    };
    let ghost l0 = left;
    let ghost p0 = p;
    while p < tokens.len() && matches!(tokens[p], ExprToken::Or)
        invariant
            tv == etoks_view(tokens@),
            etoks_wf(tv),
            pos < p0 <= p <= tokens@.len(),
            p_or(tv, pos as int) == or_loop(tv, p0 as int, l0),
            or_loop(tv, p as int, left) == or_loop(tv, p0 as int, l0),
        decreases tokens@.len() - p,
    {
        assert(tv[p as int] == etok_view(tokens@[p as int]));
        proof {
            lemma_p_and(tv, p + 1);
        }
        let (right, np) = match parse_and(tokens, p + 1) {
            Err(e) => return Err(e),
            Ok(x) => x,
        };
        left = or_tri_exec(left, right);
        p = np;
    }
    if p < tokens.len() {
        assert(tv[p as int] == etok_view(tokens@[p as int]));
    }
    Ok((left, p))
}

// ---------------------------------------------------------------------------
// Evaluation
// ---------------------------------------------------------------------------

/// The value of the expression `expr` (unknown when it has no tokens or
/// does not parse) and the parse error, if any.
pub open spec fn eval_result(expr: Seq<char>) -> (Option<bool>, Option<EErr>) {
    let t = expr_tokens(expr);
    if t.len() == 0 {
        (None, None)
    } else {
        match p_or(t, 0) {
            Ok((r, _)) => (r, None),
            Err(e) => (None, Some(e)),
        }
    }
}

/// The message reported when `expr` cannot be evaluated.
pub open spec fn diag_message(expr: Seq<char>, e: EErr) -> Seq<char> {
    seq!['C', 'a', 'n', 'n', 'o', 't', ' ', 'e', 'v', 'a', 'l', 'u', 'a', 't', 'e', ' ', 'c', 'o', 'n', 'd', 'i', 't', 'i', 'o', 'n', ' ', '\''] + expr + seq!['\'', ':', ' '] + err_message(e)
}

/// The code of the diagnostic for a condition that cannot be evaluated.
pub open spec fn eval_diag_code() -> Seq<char> {
    seq!['D', '0', '1', '0']
}

/// `d` is the diagnostic reported when `expr` fails to parse with `e`.
pub open spec fn is_eval_diag(d: Diagnostic, expr: Seq<char>, e: EErr, loc: SourceLocation) -> bool {
    &&& d.code@ == eval_diag_code()
    &&& d.message@ == diag_message(expr, e)
    &&& d.loc == loc
    &&& d.severity == Severity::Info
}

/// `after` is `before` with the diagnostic for `err` (if any) appended.
pub open spec fn diags_after(
    before: Seq<Diagnostic>,
    after: Seq<Diagnostic>,
    expr: Seq<char>,
    err: Option<EErr>,
    loc: SourceLocation,
) -> bool {
    match err {
        None => after == before,
        Some(e) => after.len() == before.len() + 1 && after.subrange(0, before.len() as int) == before
            && is_eval_diag(after.last(), expr, e, loc),
    }
}

/// Evaluates the expression `expr`; a parse error is reported as an
/// informational diagnostic at `loc` and makes the result unknown.
pub fn eval_expr(expr: &str, loc: &SourceLocation, diagnostics: &mut Vec<Diagnostic>) -> (r: Option<bool>)
    ensures
        r == eval_result(expr@).0,
        diags_after(old(diagnostics)@, final(diagnostics)@, expr@, eval_result(expr@).1, *loc),
{
    let chars = chars_of(expr);
    let tokens = tokenise_expr(chars.as_slice());
    if tokens.len() == 0 {
        return None;
    }
    proof {
        lemma_p_or(etoks_view(tokens@), 0);
    }
    match parse_or(&tokens, 0) {
        Ok((result, _)) => result,
        Err(EvalError(msg)) => {
            let mut m = string_of_all(&['C', 'a', 'n', 'n', 'o', 't', ' ', 'e', 'v', 'a', 'l', 'u', 'a', 't', 'e', ' ', 'c', 'o', 'n', 'd', 'i', 't', 'i', 'o', 'n', ' ', '\'']);
            push_str(&mut m, expr);
            push_chars(&mut m, &['\'', ':', ' ']);
            push_str(&mut m, msg.as_str());
            let d = Diagnostic {
                code: string_of_all(&['D', '0', '1', '0']),
                message: m,
                loc: loc.duplicate(),
                severity: Severity::Info,
            };
            let ghost before = diagnostics@;
            diagnostics.push(d);
            assert(diagnostics@.subrange(0, before.len() as int) =~= before);
            None
        },
    }
}

} // verus!
