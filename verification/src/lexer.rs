//! Line-by-line lexer for the dollar layer of GAMS source files.
//!
//! Each line becomes at most one token: `*` comment lines, dollar
//! directives (`$` in the first column, or `$$`, which stands for `$` and
//! may follow leading whitespace), the
//! lines of a `$ontext` … `$offtext` block (dropped, apart from the closing
//! `$offtext`), multi-line `$macro` … `$endmacro` definitions (one token),
//! and plain body lines. The list ends with an `Eof` token.

use std::path::PathBuf;

use crate::directive::{directive, match_directive, strings_view};
use crate::text::{
    chars_of, is_word, is_word_char, kw_at, kw_at_exec, lemma_trim_end_char, push_char,
    push_chars, skip_word, skip_ws, string_of, string_of_all, strip_newline, strip_newline_end,
    strip_newline_len, trim, trim_bounds, trim_end_char, word_end, ws_end,
};
use crate::types::{SourceLocation, Token, TokenKind};
use vstd::prelude::*;

verus! {

// ---------------------------------------------------------------------------
// Public error type
// ---------------------------------------------------------------------------

#[derive(Debug)]
pub struct LexerError {
    pub message: String,
    pub loc: SourceLocation,
}

impl LexerError {
    /// `file:line:col: message`.
    pub fn to_string(&self) -> (r: String)
        ensures
            r@ == crate::types::location_text(self.loc) + ": "@ + self.message@,
    {
        let mut s = self.loc.to_string();
        crate::text::push_str(&mut s, ": ");
        crate::text::push_str(&mut s, self.message.as_str());
        s
    }
}

// ---------------------------------------------------------------------------
// Lines
// ---------------------------------------------------------------------------

/// Index just past the first `'\n'` at or after `p`, or the end of `t`.
pub open spec fn nl_end(t: Seq<char>, p: int) -> int
    decreases t.len() - p,
{
    if p < 0 || p >= t.len() {
        t.len() as int
    } else if t[p] == '\n' {
        p + 1
    } else {
        nl_end(t, p + 1)
    }
}

/// The lines of `t[p..]`, each with its line break (`split_inclusive('\n')`).
pub open spec fn lines_from(t: Seq<char>, p: int) -> Seq<Seq<char>>
    decreases t.len() - p,
{
    if p < 0 || p >= t.len() {
        seq![]
    } else {
        let e = nl_end(t, p);
        if p < e <= t.len() {
            seq![t.subrange(p, e)] + lines_from(t, e)
        } else {
            seq![]
        }
    }
}

/// The lines of `t`, each with its line break.
pub open spec fn lines_of(t: Seq<char>) -> Seq<Seq<char>> {
    lines_from(t, 0)
}

pub proof fn lemma_nl_end(t: Seq<char>, p: int)
    requires
        0 <= p < t.len(),
    ensures
        p < nl_end(t, p) <= t.len(),
        forall|k: int| p <= k < nl_end(t, p) - 1 ==> #[trigger] t[k] != '\n',
        nl_end(t, p) < t.len() ==> t[nl_end(t, p) - 1] == '\n',
        t[nl_end(t, p) - 1] != '\n' ==> nl_end(t, p) == t.len(),
    decreases t.len() - p,
{
    if t[p] != '\n' {
        if p + 1 < t.len() {
            lemma_nl_end(t, p + 1);
        } else {
            assert(nl_end(t, p + 1) == t.len());
        }
    }
}

pub proof fn lemma_lines_from(t: Seq<char>, p: int)
    requires
        0 <= p <= t.len(),
    ensures
        lines_from(t, p).len() <= t.len() - p,
        forall|k: int| 0 <= k < lines_from(t, p).len() ==> no_inner_newline(#[trigger] lines_from(t, p)[k]),
    decreases t.len() - p,
{
    if p < t.len() {
        lemma_nl_end(t, p);
        let e = nl_end(t, p);
        lemma_lines_from(t, e);
        let l = t.subrange(p, e);
        assert forall|k: int| 0 <= k < l.len() - 1 implies #[trigger] l[k] != '\n' by {
            assert(l[k] == t[p + k]);
        }
        assert forall|k: int| 0 <= k < lines_from(t, p).len() implies no_inner_newline(
            #[trigger] lines_from(t, p)[k],
        ) by {
            if k > 0 {
                assert(lines_from(t, p)[k] == lines_from(t, e)[k - 1]);
            }
        }
    }
}

/// A line holds `'\n'` at most as its last character.
pub open spec fn no_inner_newline(l: Seq<char>) -> bool {
    forall|k: int| 0 <= k < l.len() - 1 ==> #[trigger] l[k] != '\n'
}

/// Index just past the first `'\n'` at or after `p` (executable).
fn find_nl_end(t: &[char], p: usize) -> (r: usize)
    requires
        p < t.len(),
    ensures
        r as int == nl_end(t@, p as int),
{
    let mut q = p;
    while q < t.len() && t[q] != '\n'
        invariant
            p <= q <= t.len(),
            nl_end(t@, q as int) == nl_end(t@, p as int),
        decreases t.len() - q,
    {
        q += 1;
    }
    if q < t.len() {
        q + 1
    } else {
        q
    }
}

/// A copy of `t[a..b]`.
pub fn copy_range(t: &[char], a: usize, b: usize) -> (r: Vec<char>)
    requires
        a <= b <= t.len(),
    ensures
        r@ == t@.subrange(a as int, b as int),
{
    let mut r: Vec<char> = Vec::new();
    let mut q = a;
    while q < b
        invariant
            a <= q <= b <= t.len(),
            r@ == t@.subrange(a as int, q as int),
        decreases b - q,
    {
        r.push(t[q]);
        assert(t@.subrange(a as int, q + 1) == t@.subrange(a as int, q as int).push(t@[q as int]));
        q += 1;
    }
    r
}

/// The view of a vector of lines.
pub open spec fn lines_view(v: Seq<Vec<char>>) -> Seq<Seq<char>> {
    v.map_values(|l: Vec<char>| l@)
}

/// Splits `t` into its lines (`split_inclusive('\n')`).
fn split_lines(t: &[char]) -> (r: Vec<Vec<char>>)
    ensures
        lines_view(r@) == lines_of(t@),
{
    let mut r: Vec<Vec<char>> = Vec::new();
    let mut p: usize = 0;
    while p < t.len()
        invariant
            p <= t.len(),
            lines_view(r@) + lines_from(t@, p as int) == lines_of(t@),
        decreases t.len() - p,
    {
        proof {
            lemma_nl_end(t@, p as int);
        }
        let e = find_nl_end(t, p);
        let line = copy_range(t, p, e);
        let ghost old_r = lines_view(r@);
        r.push(line);
        assert(lines_view(r@) =~= old_r.push(t@.subrange(p as int, e as int)));
        assert(lines_from(t@, p as int) == seq![t@.subrange(p as int, e as int)] + lines_from(t@, e as int));
        assert(old_r + lines_from(t@, p as int) =~= old_r.push(t@.subrange(p as int, e as int)) + lines_from(t@, e as int));
        p = e;
    }
    assert(lines_from(t@, p as int) =~= seq![]);
    assert(lines_view(r@) =~= lines_view(r@) + lines_from(t@, p as int));
    r
}

// ---------------------------------------------------------------------------
// Line classification
// ---------------------------------------------------------------------------

/// `kw` at `p`, not followed by a word character (`kw\b`).
pub open spec fn bounded_kw(s: Seq<char>, p: int, kw: Seq<char>) -> bool {
    &&& kw_at(s, p, kw)
    &&& (p + kw.len() >= s.len() || !is_word(s[p + kw.len()]))
}

pub open spec fn kw_offtext() -> Seq<char> {
    seq!['o', 'f', 'f', 't', 'e', 'x', 't']
}

pub open spec fn kw_ontext() -> Seq<char> {
    seq!['o', 'n', 't', 'e', 'x', 't']
}

pub open spec fn kw_macro() -> Seq<char> {
    seq!['m', 'a', 'c', 'r', 'o']
}

pub open spec fn kw_endmacro() -> Seq<char> {
    seq!['e', 'n', 'd', 'm', 'a', 'c', 'r', 'o']
}

/// `s` opens with `$` followed by the keyword `kw` and a word boundary.
#[verifier::opaque]
pub open spec fn dollar_kw(s: Seq<char>, kw: Seq<char>) -> bool {
    s.len() > 0 && s[0] == '$' && bounded_kw(s, 1, kw)
}

/// The line without its leading whitespace.
pub open spec fn lead_stripped(line: Seq<char>) -> Seq<char> {
    line.subrange(ws_end(line, 0), line.len() as int)
}

/// The line opens with `$` and the keyword `kw` in its first column, or
/// with `$$` and `kw` after leading whitespace (the indented form).
pub open spec fn dollar_kw_line(line: Seq<char>, kw: Seq<char>) -> bool {
    let p = ws_end(line, 0);
    ||| (line.len() > 0 && line[0] == '$' && bounded_kw(line, 1, kw))
    ||| (p + 1 < line.len() && line[p] == '$' && line[p + 1] == '$' && bounded_kw(line, p + 2, kw))
}

/// Inside a `$ontext` block: the line closes it.
#[verifier::opaque]
pub open spec fn is_offtext_line(line: Seq<char>) -> bool {
    dollar_kw_line(line, kw_offtext())
}

/// The line is a native `*` comment.
pub open spec fn is_comment_line(line: Seq<char>) -> bool {
    line.len() > 0 && line[0] == '*'
}

/// The line is a dollar directive: `$` in its first column, or `$$` after
/// leading whitespace (the indented form). A single `$` after whitespace
/// does not make a directive.
#[verifier::opaque]
pub open spec fn is_directive_line(line: Seq<char>) -> bool {
    let p = ws_end(line, 0);
    ||| (line.len() > 0 && line[0] == '$')
    ||| (p + 1 < line.len() && line[p] == '$' && line[p + 1] == '$')
}

/// The directive text of a directive line: leading whitespace and the line
/// break removed, and one `$` dropped when it opens with `$$`.
#[verifier::opaque]
pub open spec fn effective(line: Seq<char>) -> Seq<char> {
    let st = strip_newline(lead_stripped(line));
    if st.len() >= 2 && st[0] == '$' && st[1] == '$' {
        st.subrange(1, st.len() as int)
    } else {
        st
    }
}

// ---------------------------------------------------------------------------
// Macros
// ---------------------------------------------------------------------------

/// First index at or after `j` that holds `')'`, or the end of `s`.
pub open spec fn close_paren(s: Seq<char>, j: int) -> int
    decreases s.len() - j,
{
    if j < 0 || j >= s.len() {
        s.len() as int
    } else if s[j] == ')' {
        j
    } else {
        close_paren(s, j + 1)
    }
}

/// `$macro\s+(\w+)(?:\(([^)]*)\))?\s*(.*)` on the header `h`: the name,
/// the raw parameter list and the trimmed inline body.
pub open spec fn macro_parse(h: Seq<char>) -> Option<(Seq<char>, Seq<char>, Seq<char>)> {
    if h.len() > 0 && h[0] == '$' && kw_at(h, 1, kw_macro()) {
        let q = ws_end(h, 6);
        let e = word_end(h, q);
        if q > 6 && e > q {
            let c = close_paren(h, e + 1);
            let has_params = e < h.len() && h[e] == '(' && c < h.len();
            let params = if has_params { h.subrange(e + 1, c) } else { seq![] };
            let after = if has_params { c + 1 } else { e };
            Some((h.subrange(q, e), params, trim(h.subrange(ws_end(h, after), h.len() as int))))
        } else {
            None
        }
    } else {
        None
    }
}

/// First index at or after `j` that holds `','`, or the end of `s`.
pub open spec fn next_comma(s: Seq<char>, j: int) -> int
    decreases s.len() - j,
{
    if j < 0 || j >= s.len() {
        s.len() as int
    } else if s[j] == ',' {
        j
    } else {
        next_comma(s, j + 1)
    }
}

/// The trimmed, non-empty pieces of `s[start..]` split at `','`.
pub open spec fn params_from(s: Seq<char>, start: int) -> Seq<Seq<char>>
    decreases s.len() - start,
{
    if start < 0 || start > s.len() {
        seq![]
    } else {
        let k = next_comma(s, start);
        let piece = trim(s.subrange(start, k));
        let rest = if start <= k < s.len() { params_from(s, k + 1) } else { seq![] };
        if piece.len() > 0 {
            seq![piece] + rest
        } else {
            rest
        }
    }
}

/// `parts` joined with the separator `sep`.
pub open spec fn join(parts: Seq<Seq<char>>, sep: char) -> Seq<char>
    decreases parts.len(),
{
    if parts.len() == 0 {
        seq![]
    } else if parts.len() == 1 {
        parts[0]
    } else {
        join(parts.drop_last(), sep).push(sep) + parts.last()
    }
}

/// The line ends a multi-line macro: `$endmacro` in its first column, or
/// `$$endmacro` after leading whitespace (on the line without its break).
pub open spec fn is_endmacro_line(line: Seq<char>) -> bool {
    dollar_kw_line(strip_newline(line), kw_endmacro())
}

/// First index at or after `j` whose line ends a macro, or the number of
/// lines.
pub open spec fn macro_stop(ls: Seq<Seq<char>>, j: int) -> int
    decreases ls.len() - j,
{
    if j < 0 || j >= ls.len() {
        ls.len() as int
    } else if is_endmacro_line(ls[j]) {
        j
    } else {
        macro_stop(ls, j + 1)
    }
}

pub proof fn lemma_macro_stop(ls: Seq<Seq<char>>, j: int)
    requires
        0 <= j <= ls.len(),
    ensures
        j <= macro_stop(ls, j) <= ls.len(),
        forall|k: int| j <= k < macro_stop(ls, j) ==> !is_endmacro_line(#[trigger] ls[k]),
        macro_stop(ls, j) < ls.len() ==> is_endmacro_line(ls[macro_stop(ls, j)]),
    decreases ls.len() - j,
{
    if j < ls.len() && !is_endmacro_line(ls[j]) {
        lemma_macro_stop(ls, j + 1);
    }
}

/// The token model: kind, raw text, line number and arguments.
pub struct TokSpec {
    pub kind: TokenKind,
    pub raw: Seq<char>,
    pub line: u32,
    pub args: Seq<Seq<char>>,
}

pub open spec fn tok(kind: TokenKind, raw: Seq<char>, line: int, args: Seq<Seq<char>>) -> TokSpec {
    TokSpec { kind, raw, line: line as u32, args }
}

/// The macro token that the header `h` on line index `i` gives, and the
/// index of the first line after the definition.
#[verifier::opaque]
pub open spec fn macro_token(h: Seq<char>, ls: Seq<Seq<char>>, i: int) -> (TokSpec, int) {
    match macro_parse(h) {
        None => (tok(TokenKind::Macro, h, i + 1, seq![]), i + 1),
        Some((name, params, inline_body)) => {
            let pj = join(params_from(params, 0), ',');
            if inline_body.len() > 0 {
                (tok(TokenKind::Macro, h, i + 1, seq![name, pj, inline_body]), i + 1)
            } else {
                let stop = macro_stop(ls, i + 1);
                let body_lines = ls.subrange(i + 1, stop).map_values(|l: Seq<char>| strip_newline(l));
                let next = if stop < ls.len() { stop + 1 } else { stop };
                (tok(TokenKind::Macro, h, i + 1, seq![name, pj, join(body_lines, '\n')]), next)
            }
        },
    }
}

pub proof fn lemma_macro_token_next(h: Seq<char>, ls: Seq<Seq<char>>, i: int)
    requires
        0 <= i < ls.len(),
    ensures
        i < macro_token(h, ls, i).1 <= ls.len(),
{
    reveal(macro_token);
    lemma_macro_stop(ls, i + 1);
}

// ---------------------------------------------------------------------------
// The lexer as a function of the lines
// ---------------------------------------------------------------------------

/// Tokens of lines `i..` (without the final `Eof`) and whether the text
/// ends inside a `$ontext` block, starting inside one when `blk`.
pub open spec fn lex_from(ls: Seq<Seq<char>>, i: int, blk: bool) -> (Seq<TokSpec>, bool)
    decreases ls.len() - i,
{
    if i < 0 || i >= ls.len() {
        (seq![], blk)
    } else {
        let line = ls[i];
        if blk {
            if is_offtext_line(line) {
                let rest = lex_from(ls, i + 1, false);
                (seq![tok(TokenKind::OffText, strip_newline(line), i + 1, seq![])] + rest.0, rest.1)
            } else {
                lex_from(ls, i + 1, true)
            }
        } else if is_comment_line(line) {
            let rest = lex_from(ls, i + 1, false);
            (seq![tok(TokenKind::CommentLine, strip_newline(line), i + 1, seq![])] + rest.0, rest.1)
        } else if is_directive_line(line) {
            let eff = effective(line);
            if dollar_kw(eff, kw_macro()) {
                let (t, next) = macro_token(eff, ls, i);
                proof {
                    lemma_macro_token_next(eff, ls, i);
                }
                let rest = lex_from(ls, next, false);
                (seq![t] + rest.0, rest.1)
            } else if dollar_kw(eff, kw_ontext()) {
                let rest = lex_from(ls, i + 1, true);
                (seq![tok(TokenKind::OnText, eff, i + 1, seq![])] + rest.0, rest.1)
            } else {
                let d = directive(eff);
                let rest = lex_from(ls, i + 1, false);
                (seq![tok(d.0, eff, i + 1, d.1)] + rest.0, rest.1)
            }
        } else {
            let rest = lex_from(ls, i + 1, false);
            (seq![tok(TokenKind::BodyText, line, i + 1, seq![])] + rest.0, rest.1)
        }
    }
}

/// Tokens of `text` (without `Eof`) and whether it ends inside a
/// `$ontext` block.
pub open spec fn lex_spec(text: Seq<char>) -> (Seq<TokSpec>, bool) {
    lex_from(lines_of(text), 0, false)
}

/// The model of an executable token.
pub open spec fn tok_view(t: Token) -> TokSpec {
    TokSpec { kind: t.kind, raw: t.raw@, line: t.loc.line, args: strings_view(t.args@) }
}

pub open spec fn toks_view(v: Seq<Token>) -> Seq<TokSpec> {
    v.map_values(|t: Token| tok_view(t))
}

/// The token points at column 1 of `file`, with no span.
pub open spec fn loc_in(t: Token, file: PathBuf) -> bool {
    t.loc.file == file && t.loc.col == 1 && t.loc.length == 0
}

// ---------------------------------------------------------------------------
// Executable lexer
// ---------------------------------------------------------------------------

fn bounded_kw_exec(s: &[char], p: usize, kw: &[char]) -> (r: bool)
    ensures
        r == bounded_kw(s@, p as int, kw@),
{
    if !kw_at_exec(s, p, kw) {
        return false;
    }
    assert(p + kw.len() <= s.len());
    let e = p + kw.len();
    e >= s.len() || !is_word_char(s[e])
}

fn dollar_kw_exec(s: &[char], kw: &[char]) -> (r: bool)
    ensures
        r == dollar_kw(s@, kw@),
{
    reveal(dollar_kw);
    s.len() > 0 && s[0] == '$' && bounded_kw_exec(s, 1, kw)
}

fn dollar_kw_line_exec(line: &[char], kw: &[char]) -> (r: bool)
    ensures
        r == dollar_kw_line(line@, kw@),
{
    if line.len() > 0 && line[0] == '$' && bounded_kw_exec(line, 1, kw) {
        return true;
    }
    let p = skip_ws(line, 0);
    p < line.len() && p + 1 < line.len() && line[p] == '$' && line[p + 1] == '$' && bounded_kw_exec(line, p + 2, kw)
}

fn is_offtext_line_exec(line: &[char]) -> (r: bool)
    ensures
        r == is_offtext_line(line@),
{
    reveal(is_offtext_line);
    dollar_kw_line_exec(line, &['o', 'f', 'f', 't', 'e', 'x', 't'])
}

fn is_directive_line_exec(line: &[char]) -> (r: bool)
    ensures
        r == is_directive_line(line@),
{
    reveal(is_directive_line);
    if line.len() > 0 && line[0] == '$' {
        return true;
    }
    let a = skip_ws(line, 0);
    a < line.len() && a + 1 < line.len() && line[a] == '$' && line[a + 1] == '$'
}

proof fn lemma_strip_newline_no_nl(s: Seq<char>)
    requires
        no_inner_newline(s),
    ensures
        !strip_newline(s).contains('\n'),
{
    lemma_trim_end_char(s, s.len() as int, '\n');
    let a = trim_end_char(s, s.len() as int, '\n');
    lemma_trim_end_char(s, a, '\r');
    let b = strip_newline_len(s);
    assert forall|k: int| 0 <= k < b implies strip_newline(s)[k] != '\n' by {
        assert(strip_newline(s)[k] == s[k]);
        if k == s.len() - 1 {
            assert(a == s.len());
            assert(s[a - 1] != '\n');
        }
    }
}

fn effective_exec(line: &[char]) -> (r: Vec<char>)
    requires
        no_inner_newline(line@),
    ensures
        r@ == effective(line@),
        !r@.contains('\n'),
{
    reveal(effective);
    let a = skip_ws(line, 0);
    let st = copy_range(line, a, line.len());
    let n = strip_newline_end(st.as_slice());
    proof {
        assert(no_inner_newline(st@)) by {
            assert forall|k: int| 0 <= k < st@.len() - 1 implies #[trigger] st@[k] != '\n' by {
                assert(st@[k] == line@[a + k]);
            }
        }
        lemma_strip_newline_no_nl(st@);
    }
    if n >= 2 && st[0] == '$' && st[1] == '$' {
        let r = copy_range(st.as_slice(), 1, n);
        proof {
            assert(r@ == strip_newline(st@).subrange(1, n as int));
            assert forall|k: int| 0 <= k < r@.len() implies r@[k] != '\n' by {
                assert(r@[k] == strip_newline(st@)[k + 1]);
            }
        }
        r
    } else {
        copy_range(st.as_slice(), 0, n)
    }
}

fn close_paren_exec(s: &[char], j: usize) -> (r: usize)
    requires
        j <= s.len(),
    ensures
        r as int == close_paren(s@, j as int),
        j <= r <= s.len(),
{
    let mut k = j;
    while k < s.len() && s[k] != ')'
        invariant
            j <= k <= s.len(),
            close_paren(s@, k as int) == close_paren(s@, j as int),
        decreases s.len() - k,
    {
        k += 1;
    }
    k
}

pub(crate) fn next_comma_exec(s: &[char], j: usize) -> (r: usize)
    requires
        j <= s.len(),
    ensures
        r as int == next_comma(s@, j as int),
        j <= r <= s.len(),
{
    let mut k = j;
    while k < s.len() && s[k] != ','
        invariant
            j <= k <= s.len(),
            next_comma(s@, k as int) == next_comma(s@, j as int),
        decreases s.len() - k,
    {
        k += 1;
    }
    k
}

proof fn lemma_join_push(parts: Seq<Seq<char>>, x: Seq<char>, sep: char)
    ensures
        join(parts.push(x), sep) == if parts.len() == 0 { x } else { join(parts, sep).push(sep) + x },
{
    assert(parts.push(x).drop_last() =~= parts);
    if parts.len() == 0 {
        assert(parts.push(x) =~= seq![x]);
    }
}

/// The parameter pieces of `raw[lo..hi]`, trimmed, the empty ones dropped,
/// joined with `','`.
fn params_joined(s: &[char]) -> (r: String)
    ensures
        r@ == join(params_from(s@, 0), ','),
{
    let mut out = String::new();
    let ghost mut done: Seq<Seq<char>> = seq![];
    let mut start: usize = 0;
    let mut finished = false;
    let mut any = false;
    while !finished
        invariant
            start <= s.len(),
            any == (done.len() > 0),
            finished ==> done == params_from(s@, 0),
            !finished ==> done + params_from(s@, start as int) == params_from(s@, 0),
            out@ == join(done, ','),
        decreases s.len() + 1 - start, (if finished { 0int } else { 1int }),
    {
        let k = next_comma_exec(s, start);
        let (a, b) = trim_bounds(s, start, k);
        let ghost piece = s@.subrange(a as int, b as int);
        let ghost rest = if k < s.len() { params_from(s@, k + 1) } else { seq![] };
        proof {
            assert(params_from(s@, start as int) == if piece.len() > 0 { seq![piece] + rest } else { rest });
        }
        if a < b {
            proof {
                lemma_join_push(done, piece, ',');
            }
            if any {
                push_char(&mut out, ',');
            }
            let pc = copy_range(s, a, b);
            push_chars(&mut out, pc.as_slice());
            any = true;
            proof {
                assert(s@.subrange(a as int, b as int) == piece);
                assert(done.push(piece) + rest =~= done + (seq![piece] + rest));
                done = done.push(piece);
            }
        }
        if k < s.len() {
            start = k + 1;
        } else {
            proof {
                assert(done + rest =~= done);
            }
            finished = true;
        }
    }
    out
}

/// The token of a `$macro` header `h` on line index `i`, and the number of
/// lines it takes up.
fn lex_macro(h: &[char], ls: &Vec<Vec<char>>, i: usize, file: &PathBuf) -> (r: (Token, usize))
    requires
        i < ls@.len(),
    ensures
        tok_view(r.0) == macro_token(h@, lines_view(ls@), i as int).0,
        loc_in(r.0, *file),
        i + r.1 == macro_token(h@, lines_view(ls@), i as int).1,
{
    reveal(macro_token);
    let ghost lv = lines_view(ls@);
    // `i` indexes `ls`, so `i + 1` cannot overflow.
    let _n = ls.len();
    let line_num = #[verifier::truncate] ((i + 1) as u32);
    let loc = SourceLocation::new(file.clone(), line_num, 1);
    let raw = string_of_all(h);
    let fail = h.len() == 0 || h[0] != '$' || !kw_at_exec(h, 1, &['m', 'a', 'c', 'r', 'o']);
    let q = if fail { 0 } else { skip_ws(h, 6) };
    let e = if fail { 0 } else { skip_word(h, q) };
    if fail || !(q > 6 && e > q) {
        let t = Token { kind: TokenKind::Macro, raw, loc, args: Vec::new() };
        assert(strings_view(t.args@) =~= seq![]);
        return (t, 1);
    }
    let name = string_of(h, q, e);
    let c = close_paren_exec(h, if e < h.len() { e + 1 } else { h.len() });
    let has_params = e < h.len() && h[e] == '(' && c < h.len();
    let pv = if has_params { copy_range(h, e + 1, c) } else { Vec::new() };
    let pj = params_joined(pv.as_slice());
    let after = if has_params { c + 1 } else { e };
    let body_start = skip_ws(h, after);
    let (ba, bb) = trim_bounds(h, body_start, h.len());
    proof {
        if !has_params {
            assert(pv@ =~= Seq::<char>::empty());
        }
    }
    if ba < bb {
        let inline_body = string_of(h, ba, bb);
        let mut args: Vec<String> = Vec::new();
        args.push(name);
        args.push(pj);
        args.push(inline_body);
        let t = Token { kind: TokenKind::Macro, raw, loc, args };
        assert(strings_view(t.args@) =~= macro_token(h@, lv, i as int).0.args);
        return (t, 1);
    }
    // Multi-line macro: collect until $endmacro
    let mut body = String::new();
    let ghost mut body_lines: Seq<Seq<char>> = seq![];
    let mut j = i + 1;
    proof {
        lemma_macro_stop(lv, i + 1);
    }
    let ghost stop = macro_stop(lv, i + 1);
    let mut found = false;
    while j < ls.len() && !found
        invariant
            i + 1 <= j <= ls@.len(),
            stop <= ls@.len(),
            lv == lines_view(ls@),
            stop == macro_stop(lv, i + 1),
            found ==> j == stop + 1 && stop < ls@.len(),
            !found ==> j <= stop,
            forall|k: int| i + 1 <= k < stop ==> !is_endmacro_line(#[trigger] lv[k]),
            stop < lv.len() ==> is_endmacro_line(lv[stop]),
            body_lines == lv.subrange(i + 1, if found { j - 1 } else { j as int }).map_values(
                |l: Seq<char>| strip_newline(l),
            ),
            body@ == join(body_lines, '\n'),
        decreases ls@.len() - j, (if found { 0int } else { 1int }),
    {
        let n = strip_newline_end(ls[j].as_slice());
        let bl = copy_range(ls[j].as_slice(), 0, n);
        assert(lv[j as int] == ls@[j as int]@);
        if dollar_kw_line_exec(bl.as_slice(), &['e', 'n', 'd', 'm', 'a', 'c', 'r', 'o']) {
            assert(is_endmacro_line(lv[j as int]));
            found = true;
            j += 1;
        } else {
            assert(!is_endmacro_line(lv[j as int]));
            proof {
                lemma_join_push(body_lines, bl@, '\n');
            }
            if j > i + 1 {
                push_char(&mut body, '\n');
            }
            push_chars(&mut body, bl.as_slice());
            proof {
                assert(lv.subrange(i + 1, j + 1).map_values(|l: Seq<char>| strip_newline(l)) =~= body_lines.push(
                    bl@,
                ));
                body_lines = body_lines.push(bl@);
            }
            j += 1;
        }
    }
    let mut args: Vec<String> = Vec::new();
    args.push(name);
    args.push(pj);
    args.push(body);
    let t = Token { kind: TokenKind::Macro, raw, loc, args };
    assert(strings_view(t.args@) =~= macro_token(h@, lv, i as int).0.args);
    (t, j - i)
}

proof fn lemma_toks_push(v: Seq<Token>, t: Token)
    ensures
        toks_view(v.push(t)) == toks_view(v).push(tok_view(t)),
{
    assert(toks_view(v.push(t)) =~= toks_view(v).push(tok_view(t)));
}

/// The message of the error for a text that ends inside a `$ontext` block.
pub open spec fn unterminated_message() -> Seq<char> {
    "Unterminated $ontext block (no matching $offtext found)"@
}

/// Lex an in-memory string. `file` is used only for `SourceLocation` reporting.
///
/// The tokens are those of [`lex_spec`] followed by an `Eof` token on the
/// line after the last one; every location is column 1 of `file`. A text
/// that ends inside a `$ontext` block is an error located on its last
/// line.
pub fn tokenize_str(file: PathBuf, text: &str) -> (r: Result<Vec<Token>, LexerError>)
    ensures
        match r {
            Ok(v) => {
                &&& !lex_spec(text@).1
                &&& toks_view(v@) == lex_spec(text@).0.push(
                    tok(TokenKind::Eof, seq![], lines_of(text@).len() as int + 1, seq![]),
                )
                &&& forall|k: int| 0 <= k < v@.len() ==> loc_in(#[trigger] v@[k], file)
            },
            Err(e) => {
                &&& lex_spec(text@).1
                &&& e.message@ == unterminated_message()
                &&& e.loc == SourceLocation {
                    file,
                    line: lines_of(text@).len() as u32,
                    col: 1,
                    length: 0,
                }
            },
        },
{
    lex(file, text)
}

fn lex(file: PathBuf, text: &str) -> (r: Result<Vec<Token>, LexerError>)
    ensures
        match r {
            Ok(v) => {
                &&& !lex_spec(text@).1
                &&& toks_view(v@) == lex_spec(text@).0.push(
                    tok(TokenKind::Eof, seq![], lines_of(text@).len() as int + 1, seq![]),
                )
                &&& forall|k: int| 0 <= k < v@.len() ==> loc_in(#[trigger] v@[k], file)
            },
            Err(e) => {
                &&& lex_spec(text@).1
                &&& e.message@ == unterminated_message()
                &&& e.loc == SourceLocation {
                    file,
                    line: lines_of(text@).len() as u32,
                    col: 1,
                    length: 0,
                }
            },
        },
{
    let chars = chars_of(text);
    let lines = split_lines(chars.as_slice());
    let ghost lv = lines_view(lines@);
    proof {
        lemma_lines_from(chars@, 0);
    }
    let mut tokens: Vec<Token> = Vec::new();
    let mut in_block = false;
    let mut i: usize = 0;
    while i < lines.len()
        invariant
            i <= lines@.len(),
            lv == lines_view(lines@),
            lv == lines_of(text@),
            forall|k: int| 0 <= k < lv.len() ==> no_inner_newline(#[trigger] lv[k]),
            toks_view(tokens@) + lex_from(lv, i as int, in_block).0 == lex_from(lv, 0, false).0,
            lex_from(lv, i as int, in_block).1 == lex_from(lv, 0, false).1,
            forall|k: int| 0 <= k < tokens@.len() ==> loc_in(#[trigger] tokens@[k], file),
        decreases lines@.len() - i,
    {
        let line = lines[i].as_slice();
        assert(line@ == lv[i as int]);
        let line_num = #[verifier::truncate] ((i + 1) as u32);
        let loc = SourceLocation::new(file.clone(), line_num, 1);
        let ghost before = toks_view(tokens@);
        if in_block {
            if is_offtext_line_exec(line) {
                let n = strip_newline_end(line);
                let t = Token { kind: TokenKind::OffText, raw: string_of(line, 0, n), loc, args: Vec::new() };
                assert(strings_view(t.args@) =~= seq![]);
                proof {
                    lemma_toks_push(tokens@, t);
                }
                tokens.push(t);
                in_block = false;
                assert(toks_view(tokens@) + lex_from(lv, i + 1, in_block).0 =~= before + lex_from(lv, i as int, true).0);
            }
            i += 1;
            continue;
        }
        if line.len() > 0 && line[0] == '*' {
            let n = strip_newline_end(line);
            let t = Token { kind: TokenKind::CommentLine, raw: string_of(line, 0, n), loc, args: Vec::new() };
            assert(strings_view(t.args@) =~= seq![]);
            proof {
                lemma_toks_push(tokens@, t);
            }
            tokens.push(t);
            assert(toks_view(tokens@) + lex_from(lv, i + 1, false).0 =~= before + lex_from(lv, i as int, false).0);
            i += 1;
            continue;
        }
        if is_directive_line_exec(line) {
            let eff = effective_exec(line);
            if dollar_kw_exec(eff.as_slice(), &['m', 'a', 'c', 'r', 'o']) {
                let (t, consumed) = lex_macro(eff.as_slice(), &lines, i, &file);
                proof {
                    lemma_toks_push(tokens@, t);
                    lemma_macro_token_next(eff@, lv, i as int);
                }
                tokens.push(t);
                assert(toks_view(tokens@) + lex_from(lv, i + consumed, false).0 =~= before + lex_from(lv, i as int, false).0);
                i += consumed;
                continue;
            }
            if dollar_kw_exec(eff.as_slice(), &['o', 'n', 't', 'e', 'x', 't']) {
                let t = Token { kind: TokenKind::OnText, raw: string_of_all(eff.as_slice()), loc, args: Vec::new() };
                assert(strings_view(t.args@) =~= seq![]);
                proof {
                    lemma_toks_push(tokens@, t);
                }
                tokens.push(t);
                in_block = true;
                assert(toks_view(tokens@) + lex_from(lv, i + 1, true).0 =~= before + lex_from(lv, i as int, false).0);
                i += 1;
                continue;
            }
            let t = match_directive(eff.as_slice(), loc);
            proof {
                lemma_toks_push(tokens@, t);
            }
            tokens.push(t);
            assert(toks_view(tokens@) + lex_from(lv, i + 1, false).0 =~= before + lex_from(lv, i as int, false).0);
            i += 1;
            continue;
        }
        let t = Token { kind: TokenKind::BodyText, raw: string_of_all(line), loc, args: Vec::new() };
        assert(strings_view(t.args@) =~= seq![]);
        proof {
            lemma_toks_push(tokens@, t);
        }
        tokens.push(t);
        assert(toks_view(tokens@) + lex_from(lv, i + 1, false).0 =~= before + lex_from(lv, i as int, false).0);
        i += 1;
    }
    assert(lex_from(lv, i as int, in_block).0 =~= seq![]);
    assert(toks_view(tokens@) =~= lex_from(lv, 0, false).0);
    let n_lines = lines.len();
    let eof_line = #[verifier::truncate] ((n_lines as u128 + 1) as u32);
    let eof = Token { kind: TokenKind::Eof, raw: String::new(), loc: SourceLocation::new(file.clone(), eof_line, 1), args: Vec::new() };
    assert(strings_view(eof.args@) =~= seq![]);
    proof {
        lemma_toks_push(tokens@, eof);
    }
    tokens.push(eof);
    if in_block {
        return Err(LexerError {
            message: "Unterminated $ontext block (no matching $offtext found)".to_owned(),
            loc: SourceLocation::new(file, #[verifier::truncate] (n_lines as u32), 1),
        });
    }
    Ok(tokens)
}

} // verus!
