//! Recognition of single dollar-directive lines.
//!
//! Every directive form is an anchored pattern: `$`, a keyword matched
//! case-insensitively (with an optional suffix such as `local` in
//! `$setlocal`), then one of a few argument shapes. The patterns are tried
//! in a fixed order and the first one that matches decides the kind.

use crate::text::{
    chars_of, string_of_all,
    is_word, kw_at, kw_at_exec, nonws_end, skip_nonws, skip_word, skip_ws, string_of,
    trim, trim_bounds, word_end, ws_end, lemma_nonws_end, lemma_word_end, lemma_ws_end,
    is_word_char,
};
use crate::types::{SourceLocation, Token, TokenKind};
use vstd::prelude::*;

verus! {

/// How the text after a directive keyword is split into captures.
#[derive(Clone, Copy, PartialEq, Eq, Structural)]
pub enum Shape {
    /// `\s+(\S+)\s*(.*)`
    NameValue,
    /// `(?:\.(\w+))?\s+(\S+)\s*(.*)`
    TaggedNameValue,
    /// `\s+(\S+)(.*)`
    NameRest,
    /// `\s+(.*)`
    Rest,
    /// `(?:\.(\w+))?\s+(.*)`
    TaggedRest,
    /// `(?:\.(\w+))?`
    TagOnly,
    /// `\b(.*)`
    Bounded,
    /// `(\S+)(.*)` directly after the `$`
    AnyName,
}

/// One directive pattern: the kind it yields, its keyword (lowercase),
/// the optional keyword suffixes (tried in order) and the argument shape.
pub struct Pattern {
    pub kind: TokenKind,
    pub kw: Seq<char>,
    pub suffixes: Seq<Seq<char>>,
    pub shape: Shape,
}

/// Number of directive patterns.
pub open spec fn n_patterns() -> int {
    33
}

pub open spec fn pat(kind: TokenKind, kw: Seq<char>, suffixes: Seq<Seq<char>>, shape: Shape) -> Pattern {
    Pattern { kind, kw, suffixes, shape }
}

/// The directive patterns, in the order in which they are tried.
pub open spec fn pattern(i: int) -> Pattern {
    let none = Seq::<Seq<char>>::empty();
    if i == 0 {
        pat(TokenKind::SetGlobal, seq!['s', 'e', 't', 'g', 'l', 'o', 'b', 'a', 'l'], none, Shape::NameValue)
    } else if i == 1 {
        pat(TokenKind::SetLocal, seq!['s', 'e', 't'], seq![seq!['l', 'o', 'c', 'a', 'l']], Shape::NameValue)
    } else if i == 2 {
        pat(TokenKind::SetEnv, seq!['s', 'e', 't', 'e', 'n', 'v'], none, Shape::NameValue)
    } else if i == 3 {
        pat(TokenKind::EvalGlobal, seq!['e', 'v', 'a', 'l', 'g', 'l', 'o', 'b', 'a', 'l'], none, Shape::TaggedNameValue)
    } else if i == 4 {
        pat(TokenKind::Eval, seq!['e', 'v', 'a', 'l'], none, Shape::TaggedNameValue)
    } else if i == 5 {
        pat(TokenKind::BatInclude, seq!['b', 'a', 't', 'i', 'n', 'c', 'l', 'u', 'd', 'e'], none, Shape::NameRest)
    } else if i == 6 {
        pat(TokenKind::Include, seq!['i', 'n', 'c', 'l', 'u', 'd', 'e'], none, Shape::Rest)
    } else if i == 7 {
        pat(TokenKind::IfThenE, seq!['i', 'f', 't', 'h', 'e', 'n', 'e'], none, Shape::TaggedRest)
    } else if i == 8 {
        pat(TokenKind::IfThenI, seq!['i', 'f', 't', 'h', 'e', 'n', 'i'], none, Shape::TaggedRest)
    } else if i == 9 {
        pat(TokenKind::IfThen, seq!['i', 'f', 't', 'h', 'e', 'n'], none, Shape::TaggedRest)
    } else if i == 10 {
        pat(TokenKind::ElseIfE, seq!['e', 'l', 's', 'e', 'i', 'f', 'e'], none, Shape::TaggedRest)
    } else if i == 11 {
        pat(TokenKind::ElseIfI, seq!['e', 'l', 's', 'e', 'i', 'f', 'i'], none, Shape::TaggedRest)
    } else if i == 12 {
        pat(TokenKind::ElseIf, seq!['e', 'l', 's', 'e', 'i', 'f'], none, Shape::TaggedRest)
    } else if i == 13 {
        pat(TokenKind::Else, seq!['e', 'l', 's', 'e'], none, Shape::TagOnly)
    } else if i == 14 {
        pat(TokenKind::EndIf, seq!['e', 'n', 'd', 'i', 'f'], none, Shape::TagOnly)
    } else if i == 15 {
        pat(TokenKind::IfE, seq!['i', 'f', 'e'], none, Shape::Rest)
    } else if i == 16 {
        pat(TokenKind::IfI, seq!['i', 'f', 'i'], none, Shape::Rest)
    } else if i == 17 {
        pat(TokenKind::If, seq!['i', 'f'], none, Shape::Rest)
    } else if i == 18 {
        pat(TokenKind::Call, seq!['c', 'a', 'l', 'l'], none, Shape::Rest)
    } else if i == 19 {
        pat(
            TokenKind::Drop,
            seq!['d', 'r', 'o', 'p'],
            seq![seq!['e', 'n', 'v'], seq!['g', 'l', 'o', 'b', 'a', 'l'], seq!['l', 'o', 'c', 'a', 'l']],
            Shape::Rest,
        )
    } else if i == 20 {
        pat(TokenKind::Label, seq!['l', 'a', 'b', 'e', 'l'], none, Shape::NameRest)
    } else if i == 21 {
        pat(TokenKind::Goto, seq!['g', 'o', 't', 'o'], none, Shape::NameRest)
    } else if i == 22 {
        pat(TokenKind::Exit, seq!['e', 'x', 'i', 't'], none, Shape::Bounded)
    } else if i == 23 {
        pat(TokenKind::Abort, seq!['a', 'b', 'o', 'r', 't'], none, Shape::Bounded)
    } else if i == 24 {
        pat(TokenKind::OnText, seq!['o', 'n', 't', 'e', 'x', 't'], none, Shape::Bounded)
    } else if i == 25 {
        pat(TokenKind::OffText, seq!['o', 'f', 'f', 't', 'e', 'x', 't'], none, Shape::Bounded)
    } else if i == 26 {
        pat(TokenKind::OnEmpty, seq!['o', 'n', 'e', 'm', 'p', 't', 'y'], none, Shape::Bounded)
    } else if i == 27 {
        pat(TokenKind::OffEmpty, seq!['o', 'f', 'f', 'e', 'm', 'p', 't', 'y'], none, Shape::Bounded)
    } else if i == 28 {
        pat(TokenKind::Echo, seq!['e', 'c', 'h', 'o'], seq![seq!['n']], Shape::Rest)
    } else if i == 29 {
        pat(TokenKind::Log, seq!['l', 'o', 'g'], none, Shape::Rest)
    } else if i == 30 {
        pat(TokenKind::EolCom, seq!['e', 'o', 'l', 'c', 'o', 'm'], none, Shape::Rest)
    } else if i == 31 {
        pat(TokenKind::InlineCom, seq!['i', 'n', 'l', 'i', 'n', 'e', 'c', 'o', 'm'], none, Shape::Rest)
    } else {
        pat(TokenKind::DollarOther, Seq::<char>::empty(), none, Shape::AnyName)
    }
}

/// The directive patterns as executable data.
pub fn pattern_exec(i: usize) -> (r: (TokenKind, &'static [char], &'static [&'static [char]], Shape))
    requires
        i < n_patterns(),
    ensures
        r.0 == pattern(i as int).kind,
        r.1@ == pattern(i as int).kw,
        r.2@.len() == pattern(i as int).suffixes.len(),
        forall|j: int| 0 <= j < r.2@.len() ==> (#[trigger] r.2@[j])@ == pattern(i as int).suffixes[j],
        r.3 == pattern(i as int).shape,
{
    match i {
        0 => (TokenKind::SetGlobal, &['s', 'e', 't', 'g', 'l', 'o', 'b', 'a', 'l'], &[], Shape::NameValue),
        1 => (TokenKind::SetLocal, &['s', 'e', 't'], &[&['l', 'o', 'c', 'a', 'l']], Shape::NameValue),
        2 => (TokenKind::SetEnv, &['s', 'e', 't', 'e', 'n', 'v'], &[], Shape::NameValue),
        3 => (TokenKind::EvalGlobal, &['e', 'v', 'a', 'l', 'g', 'l', 'o', 'b', 'a', 'l'], &[], Shape::TaggedNameValue),
        4 => (TokenKind::Eval, &['e', 'v', 'a', 'l'], &[], Shape::TaggedNameValue),
        5 => (TokenKind::BatInclude, &['b', 'a', 't', 'i', 'n', 'c', 'l', 'u', 'd', 'e'], &[], Shape::NameRest),
        6 => (TokenKind::Include, &['i', 'n', 'c', 'l', 'u', 'd', 'e'], &[], Shape::Rest),
        7 => (TokenKind::IfThenE, &['i', 'f', 't', 'h', 'e', 'n', 'e'], &[], Shape::TaggedRest),
        8 => (TokenKind::IfThenI, &['i', 'f', 't', 'h', 'e', 'n', 'i'], &[], Shape::TaggedRest),
        9 => (TokenKind::IfThen, &['i', 'f', 't', 'h', 'e', 'n'], &[], Shape::TaggedRest),
        10 => (TokenKind::ElseIfE, &['e', 'l', 's', 'e', 'i', 'f', 'e'], &[], Shape::TaggedRest),
        11 => (TokenKind::ElseIfI, &['e', 'l', 's', 'e', 'i', 'f', 'i'], &[], Shape::TaggedRest),
        12 => (TokenKind::ElseIf, &['e', 'l', 's', 'e', 'i', 'f'], &[], Shape::TaggedRest),
        13 => (TokenKind::Else, &['e', 'l', 's', 'e'], &[], Shape::TagOnly),
        14 => (TokenKind::EndIf, &['e', 'n', 'd', 'i', 'f'], &[], Shape::TagOnly),
        15 => (TokenKind::IfE, &['i', 'f', 'e'], &[], Shape::Rest),
        16 => (TokenKind::IfI, &['i', 'f', 'i'], &[], Shape::Rest),
        17 => (TokenKind::If, &['i', 'f'], &[], Shape::Rest),
        18 => (TokenKind::Call, &['c', 'a', 'l', 'l'], &[], Shape::Rest),
        19 => (TokenKind::Drop, &['d', 'r', 'o', 'p'], &[&['e', 'n', 'v'], &['g', 'l', 'o', 'b', 'a', 'l'], &['l', 'o', 'c', 'a', 'l']], Shape::Rest),
        20 => (TokenKind::Label, &['l', 'a', 'b', 'e', 'l'], &[], Shape::NameRest),
        21 => (TokenKind::Goto, &['g', 'o', 't', 'o'], &[], Shape::NameRest),
        22 => (TokenKind::Exit, &['e', 'x', 'i', 't'], &[], Shape::Bounded),
        23 => (TokenKind::Abort, &['a', 'b', 'o', 'r', 't'], &[], Shape::Bounded),
        24 => (TokenKind::OnText, &['o', 'n', 't', 'e', 'x', 't'], &[], Shape::Bounded),
        25 => (TokenKind::OffText, &['o', 'f', 'f', 't', 'e', 'x', 't'], &[], Shape::Bounded),
        26 => (TokenKind::OnEmpty, &['o', 'n', 'e', 'm', 'p', 't', 'y'], &[], Shape::Bounded),
        27 => (TokenKind::OffEmpty, &['o', 'f', 'f', 'e', 'm', 'p', 't', 'y'], &[], Shape::Bounded),
        28 => (TokenKind::Echo, &['e', 'c', 'h', 'o'], &[&['n']], Shape::Rest),
        29 => (TokenKind::Log, &['l', 'o', 'g'], &[], Shape::Rest),
        30 => (TokenKind::EolCom, &['e', 'o', 'l', 'c', 'o', 'm'], &[], Shape::Rest),
        31 => (TokenKind::InlineCom, &['i', 'n', 'l', 'i', 'n', 'e', 'c', 'o', 'm'], &[], Shape::Rest),
        _ => (TokenKind::DollarOther, &[], &[], Shape::AnyName),
    }
}

// ---------------------------------------------------------------------------
// Matching
// ---------------------------------------------------------------------------

/// Where the keyword of a pattern ends when it matches after the leading
/// `$`: the first suffix of `sfx` (from index `j` on) that follows it is
/// taken along.
pub open spec fn suffix_end(s: Seq<char>, p: int, sfx: Seq<Seq<char>>, j: int) -> int
    decreases sfx.len() - j,
{
    if j < 0 || j >= sfx.len() {
        p
    } else if kw_at(s, p, sfx[j]) {
        p + sfx[j].len() as int
    } else {
        suffix_end(s, p, sfx, j + 1)
    }
}

/// `$` and the keyword `kw` open `s`; the result is where the keyword
/// (and the suffix it takes along) ends.
pub open spec fn kw_end(s: Seq<char>, kw: Seq<char>, sfx: Seq<Seq<char>>) -> Option<int> {
    if s.len() >= 1 && s[0] == '$' && kw_at(s, 1, kw) {
        Some(suffix_end(s, 1 + kw.len() as int, sfx, 0))
    } else {
        None
    }
}

/// Capture positions: the optional `.tag` and the numbered groups, each as
/// a half-open range of indices.
pub struct Caps {
    pub tag: Option<(int, int)>,
    pub groups: Seq<(int, int)>,
}

/// `(?:\.(\w+))?` at `p`: the tag range, if there is one, and where the
/// match continues.
pub open spec fn tag_at(s: Seq<char>, p: int) -> (Option<(int, int)>, int) {
    if 0 <= p < s.len() && s[p] == '.' && word_end(s, p + 1) > p + 1 {
        (Some((p + 1, word_end(s, p + 1))), word_end(s, p + 1))
    } else {
        (None, p)
    }
}

/// Where `.*` from `p` stops: at the first line feed, or the end of `s`.
pub open spec fn dot_end(s: Seq<char>, p: int) -> int
    decreases s.len() - p,
{
    if p < 0 || p >= s.len() {
        s.len() as int
    } else if s[p] == '\n' {
        p
    } else {
        dot_end(s, p + 1)
    }
}

pub proof fn lemma_dot_end(s: Seq<char>, p: int)
    requires
        0 <= p <= s.len(),
    ensures
        p <= dot_end(s, p) <= s.len(),
    decreases s.len() - p,
{
    if p < s.len() && s[p] != '\n' {
        lemma_dot_end(s, p + 1);
    }
}

fn dot_end_exec(s: &[char], p: usize) -> (r: usize)
    requires
        p <= s.len(),
    ensures
        r == dot_end(s@, p as int),
        p <= r <= s.len(),
{
    let mut k = p;
    while k < s.len() && s[k] != '\n'
        invariant
            p <= k <= s.len(),
            dot_end(s@, k as int) == dot_end(s@, p as int),
        decreases s.len() - k,
    {
        k += 1;
    }
    k
}

/// `\s+(\S+)\s*(.*)` at `p`.
pub open spec fn name_value_at(s: Seq<char>, p: int) -> Option<Seq<(int, int)>> {
    let q = ws_end(s, p);
    let r = nonws_end(s, q);
    if q > p && r > q {
        Some(seq![(q, r), (ws_end(s, r), dot_end(s, ws_end(s, r)))])
    } else {
        None
    }
}

/// `\s+(\S+)(.*)` at `p`.
pub open spec fn name_rest_at(s: Seq<char>, p: int) -> Option<Seq<(int, int)>> {
    let q = ws_end(s, p);
    let r = nonws_end(s, q);
    if q > p && r > q {
        Some(seq![(q, r), (r, dot_end(s, r))])
    } else {
        None
    }
}

/// `\s+(.*)` at `p`.
pub open spec fn rest_at(s: Seq<char>, p: int) -> Option<Seq<(int, int)>> {
    let q = ws_end(s, p);
    if q > p {
        Some(seq![(q, dot_end(s, q))])
    } else {
        None
    }
}

/// The captures of `shape` at `p`, if it matches there.
pub open spec fn shape_at(s: Seq<char>, p: int, shape: Shape) -> Option<Caps> {
    match shape {
        Shape::NameValue => match name_value_at(s, p) {
            Some(g) => Some(Caps { tag: None, groups: g }),
            None => None,
        },
        Shape::TaggedNameValue => match name_value_at(s, tag_at(s, p).1) {
            Some(g) => Some(Caps { tag: tag_at(s, p).0, groups: g }),
            None => None,
        },
        Shape::NameRest => match name_rest_at(s, p) {
            Some(g) => Some(Caps { tag: None, groups: g }),
            None => None,
        },
        Shape::Rest => match rest_at(s, p) {
            Some(g) => Some(Caps { tag: None, groups: g }),
            None => None,
        },
        Shape::TaggedRest => match rest_at(s, tag_at(s, p).1) {
            Some(g) => Some(Caps { tag: tag_at(s, p).0, groups: g }),
            None => None,
        },
        Shape::TagOnly => Some(Caps { tag: tag_at(s, p).0, groups: seq![] }),
        Shape::Bounded => if p >= s.len() || !is_word(s[p]) {
            Some(Caps { tag: None, groups: seq![(p, dot_end(s, p))] })
        } else {
            None
        },
        Shape::AnyName => {
            let r = nonws_end(s, p);
            if r > p {
                Some(Caps { tag: None, groups: seq![(p, r), (r, dot_end(s, r))] })
            } else {
                None
            }
        },
    }
}

/// The captures of pattern `i` on `s`, if it matches.
pub open spec fn pattern_match(i: int, s: Seq<char>) -> Option<Caps> {
    match kw_end(s, pattern(i).kw, pattern(i).suffixes) {
        Some(p) => shape_at(s, p, pattern(i).shape),
        None => None,
    }
}

// ---------------------------------------------------------------------------
// Arguments
// ---------------------------------------------------------------------------

pub open spec fn is_ifthen_kind(k: TokenKind) -> bool {
    k == TokenKind::IfThen || k == TokenKind::IfThenE || k == TokenKind::IfThenI
        || k == TokenKind::ElseIf || k == TokenKind::ElseIfE || k == TokenKind::ElseIfI
}

pub open spec fn is_tag_only_kind(k: TokenKind) -> bool {
    k == TokenKind::Else || k == TokenKind::EndIf
}

pub open spec fn is_eval_kind(k: TokenKind) -> bool {
    k == TokenKind::Eval || k == TokenKind::EvalGlobal
}

/// The trimmed text of range `g`.
pub open spec fn cap_text(s: Seq<char>, g: (int, int)) -> Seq<char> {
    trim(s.subrange(g.0, g.1))
}

/// The trimmed tag text, or the empty text when there is no tag.
pub open spec fn tag_text(s: Seq<char>, c: Caps) -> Seq<char> {
    match c.tag {
        Some(g) => cap_text(s, g),
        None => Seq::empty(),
    }
}

/// The trimmed texts of `groups`, the empty ones left out.
pub open spec fn nonempty_texts(s: Seq<char>, groups: Seq<(int, int)>) -> Seq<Seq<char>>
    decreases groups.len(),
{
    if groups.len() == 0 {
        seq![]
    } else {
        let rest = nonempty_texts(s, groups.drop_last());
        let t = cap_text(s, groups.last());
        if t.len() == 0 {
            rest
        } else {
            rest.push(t)
        }
    }
}

/// `s` without any leading and trailing copies of `c` (`trim_matches`).
pub open spec fn trim_char(s: Seq<char>, c: char) -> Seq<char> {
    let a = lead_count(s, c, 0);
    s.subrange(a, back_char(s, s.len() as int, c, a))
}

/// First index at or after `p` that does not hold `c`.
pub open spec fn lead_count(s: Seq<char>, c: char, p: int) -> int
    decreases s.len() - p,
{
    if 0 <= p < s.len() && s[p] == c {
        lead_count(s, c, p + 1)
    } else {
        p
    }
}

/// End of `s[lo..e]` once the trailing copies of `c` are removed.
pub open spec fn back_char(s: Seq<char>, e: int, c: char, lo: int) -> int
    decreases e - lo,
{
    if lo < e <= s.len() && s[e - 1] == c {
        back_char(s, e - 1, c, lo)
    } else {
        e
    }
}

/// An include path with surrounding double quotes, then single quotes,
/// removed.
pub open spec fn strip_quotes(s: Seq<char>) -> Seq<char> {
    trim_char(trim_char(s, '"'), '\'')
}

/// The arguments a directive of kind `k` takes from its captures.
pub open spec fn directive_args(k: TokenKind, s: Seq<char>, c: Caps) -> Seq<Seq<char>> {
    if is_ifthen_kind(k) {
        seq![tag_text(s, c), if c.groups.len() > 0 { cap_text(s, c.groups[0]) } else { seq![] }]
    } else if is_tag_only_kind(k) {
        seq![tag_text(s, c)]
    } else if is_eval_kind(k) {
        seq![
            tag_text(s, c),
            if c.groups.len() > 0 { cap_text(s, c.groups[0]) } else { seq![] },
            if c.groups.len() > 1 { cap_text(s, c.groups[1]) } else { seq![] },
        ]
    } else {
        let a = nonempty_texts(s, c.groups);
        if (k == TokenKind::Include || k == TokenKind::BatInclude) && a.len() > 0 {
            a.update(0, strip_quotes(a[0]))
        } else {
            a
        }
    }
}

/// Kind and arguments of the first pattern (from index `i` on) that
/// matches `s`; `DollarOther` without arguments when none does.
pub open spec fn first_match(s: Seq<char>, i: int) -> (TokenKind, Seq<Seq<char>>)
    decreases n_patterns() - i,
{
    if i < 0 || i >= n_patterns() {
        (TokenKind::DollarOther, seq![])
    } else {
        match pattern_match(i, s) {
            Some(c) => (pattern(i).kind, directive_args(pattern(i).kind, s, c)),
            None => first_match(s, i + 1),
        }
    }
}

/// Kind and arguments of the directive line `s`.
#[verifier::opaque]
pub open spec fn directive(s: Seq<char>) -> (TokenKind, Seq<Seq<char>>) {
    first_match(s, 0)
}

// ---------------------------------------------------------------------------
// Executable matching
// ---------------------------------------------------------------------------

/// Executable capture positions.
pub struct CapsExec {
    pub tag: Option<(usize, usize)>,
    pub groups: Vec<(usize, usize)>,
}

pub open spec fn pair_view(g: (usize, usize)) -> (int, int) {
    (g.0 as int, g.1 as int)
}

pub open spec fn caps_view(c: CapsExec) -> Caps {
    Caps {
        tag: match c.tag {
            Some(g) => Some(pair_view(g)),
            None => None,
        },
        groups: c.groups@.map_values(|g: (usize, usize)| pair_view(g)),
    }
}

fn suffix_end_exec(s: &[char], p: usize, sfx: &[&[char]]) -> (r: usize)
    requires
        p <= s.len(),
    ensures
        r as int == suffix_end(s@, p as int, sfx@.map_values(|x: &[char]| x@), 0),
        p <= r <= s.len(),
{
    let ghost sv = sfx@.map_values(|x: &[char]| x@);
    let mut j: usize = 0;
    while j < sfx.len()
        invariant
            j <= sfx.len(),
            p <= s.len(),
            sv == sfx@.map_values(|x: &[char]| x@),
            suffix_end(s@, p as int, sv, j as int) == suffix_end(s@, p as int, sv, 0),
        decreases sfx.len() - j,
    {
        if kw_at_exec(s, p, sfx[j]) {
            assert(sv[j as int] == sfx@[j as int]@);
            return p + sfx[j].len();
        }
        assert(sv[j as int] == sfx@[j as int]@);
        j += 1;
    }
    p
}

fn kw_end_exec(s: &[char], kw: &[char], sfx: &[&[char]]) -> (r: Option<usize>)
    ensures
        match r {
            Some(p) => kw_end(s@, kw@, sfx@.map_values(|x: &[char]| x@)) == Some(p as int)
                && p <= s.len(),
            None => kw_end(s@, kw@, sfx@.map_values(|x: &[char]| x@)).is_none(),
        },
{
    if s.len() >= 1 && s[0] == '$' && kw_at_exec(s, 1, kw) {
        Some(suffix_end_exec(s, 1 + kw.len(), sfx))
    } else {
        None
    }
}

fn tag_at_exec(s: &[char], p: usize) -> (r: (Option<(usize, usize)>, usize))
    requires
        p <= s.len(),
    ensures
        (match r.0 {
            Some(g) => Some(pair_view(g)),
            None => None,
        }) == tag_at(s@, p as int).0,
        r.1 as int == tag_at(s@, p as int).1,
        p <= r.1 <= s.len(),
{
    if p < s.len() && s[p] == '.' {
        let e = skip_word(s, p + 1);
        if e > p + 1 {
            return (Some((p + 1, e)), e);
        }
    }
    (None, p)
}

fn name_value_exec(s: &[char], p: usize, rest_group: bool) -> (r: Option<Vec<(usize, usize)>>)
    requires
        p <= s.len(),
    ensures
        match r {
            Some(g) => Some(g@.map_values(|x: (usize, usize)| pair_view(x))) == (if rest_group {
                name_rest_at(s@, p as int)
            } else {
                name_value_at(s@, p as int)
            }),
            None => (if rest_group {
                name_rest_at(s@, p as int)
            } else {
                name_value_at(s@, p as int)
            }).is_none(),
        },
{
    let q = skip_ws(s, p);
    let r = skip_nonws(s, q);
    if q > p && r > q {
        let mut g: Vec<(usize, usize)> = Vec::new();
        g.push((q, r));
        if rest_group {
            g.push((r, dot_end_exec(s, r)));
        } else {
            let t = skip_ws(s, r);
            g.push((t, dot_end_exec(s, t)));
        }
        proof {
            let gv = g@.map_values(|x: (usize, usize)| pair_view(x));
            if rest_group {
                assert(gv =~= seq![(q as int, r as int), (r as int, dot_end(s@, r as int))]);
            } else {
                assert(gv =~= seq![(q as int, r as int), (ws_end(s@, r as int), dot_end(s@, ws_end(s@, r as int)))]);
            }
        }
        Some(g)
    } else {
        None
    }
}

fn rest_exec(s: &[char], p: usize) -> (r: Option<Vec<(usize, usize)>>)
    requires
        p <= s.len(),
    ensures
        match r {
            Some(g) => Some(g@.map_values(|x: (usize, usize)| pair_view(x))) == rest_at(s@, p as int),
            None => rest_at(s@, p as int).is_none(),
        },
{
    let q = skip_ws(s, p);
    if q > p {
        let mut g: Vec<(usize, usize)> = Vec::new();
        g.push((q, dot_end_exec(s, q)));
        proof {
            assert(g@.map_values(|x: (usize, usize)| pair_view(x)) =~= seq![(q as int, dot_end(s@, q as int))]);
        }
        Some(g)
    } else {
        None
    }
}

fn caps_of(tag: Option<(usize, usize)>, groups: Option<Vec<(usize, usize)>>) -> (r: Option<CapsExec>)
    ensures
        match groups {
            Some(g) => r.is_some() && r.unwrap().tag == tag && r.unwrap().groups@ == g@,
            None => r.is_none(),
        },
{
    match groups {
        Some(g) => Some(CapsExec { tag, groups: g }),
        None => None,
    }
}

fn shape_exec(s: &[char], p: usize, shape: Shape) -> (r: Option<CapsExec>)
    requires
        p <= s.len(),
    ensures
        match r {
            Some(c) => Some(caps_view(c)) == shape_at(s@, p as int, shape),
            None => shape_at(s@, p as int, shape).is_none(),
        },
{
    match shape {
        Shape::NameValue => caps_of(None, name_value_exec(s, p, false)),
        Shape::TaggedNameValue => {
            let (t, p2) = tag_at_exec(s, p);
            caps_of(t, name_value_exec(s, p2, false))
        },
        Shape::NameRest => caps_of(None, name_value_exec(s, p, true)),
        Shape::Rest => caps_of(None, rest_exec(s, p)),
        Shape::TaggedRest => {
            let (t, p2) = tag_at_exec(s, p);
            caps_of(t, rest_exec(s, p2))
        },
        Shape::TagOnly => {
            let (t, _p2) = tag_at_exec(s, p);
            let r = CapsExec { tag: t, groups: Vec::new() };
            assert(caps_view(r).groups =~= seq![]);
            Some(r)
        },
        Shape::Bounded => {
            if p >= s.len() || !is_word_char(s[p]) {
                let mut g: Vec<(usize, usize)> = Vec::new();
                g.push((p, dot_end_exec(s, p)));
                let r = CapsExec { tag: None, groups: g };
                assert(caps_view(r).groups =~= seq![(p as int, dot_end(s@, p as int))]);
                Some(r)
            } else {
                None
            }
        },
        Shape::AnyName => {
            let e = skip_nonws(s, p);
            if e > p {
                let mut g: Vec<(usize, usize)> = Vec::new();
                g.push((p, e));
                g.push((e, dot_end_exec(s, e)));
                let r = CapsExec { tag: None, groups: g };
                assert(caps_view(r).groups =~= seq![(p as int, e as int), (e as int, dot_end(s@, e as int))]);
                Some(r)
            } else {
                None
            }
        },
    }
}

/// Executable form of [`pattern_match`].
fn pattern_match_exec(i: usize, s: &[char]) -> (r: Option<CapsExec>)
    requires
        i < n_patterns(),
    ensures
        match r {
            Some(c) => Some(caps_view(c)) == pattern_match(i as int, s@),
            None => pattern_match(i as int, s@).is_none(),
        },
{
    let (_kind, kw, sfx, shape) = pattern_exec(i);
    proof {
        assert(sfx@.map_values(|x: &[char]| x@) =~= pattern(i as int).suffixes);
    }
    match kw_end_exec(s, kw, sfx) {
        Some(p) => shape_exec(s, p, shape),
        None => None,
    }
}

/// The view of a vector of strings.
pub open spec fn strings_view(v: Seq<String>) -> Seq<Seq<char>> {
    v.map_values(|x: String| x@)
}

fn cap_string(s: &[char], g: (usize, usize)) -> (r: String)
    requires
        g.0 <= g.1 <= s.len(),
    ensures
        r@ == cap_text(s@, pair_view(g)),
{
    let (a, b) = trim_bounds(s, g.0, g.1);
    string_of(s, a, b)
}

fn tag_string(s: &[char], c: &CapsExec) -> (r: String)
    requires
        c.tag matches Some(g) ==> g.0 <= g.1 <= s.len(),
    ensures
        r@ == tag_text(s@, caps_view(*c)),
{
    match c.tag {
        Some(g) => cap_string(s, g),
        None => String::new(),
    }
}

fn group_string(s: &[char], c: &CapsExec, i: usize) -> (r: String)
    requires
        forall|j: int| 0 <= j < c.groups@.len() ==> (#[trigger] c.groups@[j]).0 <= c.groups@[j].1 <= s.len(),
    ensures
        r@ == (if i < caps_view(*c).groups.len() { cap_text(s@, caps_view(*c).groups[i as int]) } else { seq![] }),
{
    if i < c.groups.len() {
        cap_string(s, c.groups[i])
    } else {
        String::new()
    }
}

fn nonempty_strings(s: &[char], groups: &Vec<(usize, usize)>) -> (r: Vec<String>)
    requires
        forall|j: int| 0 <= j < groups@.len() ==> (#[trigger] groups@[j]).0 <= groups@[j].1 <= s.len(),
    ensures
        strings_view(r@) == nonempty_texts(s@, groups@.map_values(|x: (usize, usize)| pair_view(x))),
{
    let ghost gv = groups@.map_values(|x: (usize, usize)| pair_view(x));
    let mut r: Vec<String> = Vec::new();
    let mut i: usize = 0;
    while i < groups.len()
        invariant
            i <= groups.len(),
            gv == groups@.map_values(|x: (usize, usize)| pair_view(x)),
            forall|j: int| 0 <= j < groups@.len() ==> (#[trigger] groups@[j]).0 <= groups@[j].1 <= s.len(),
            strings_view(r@) == nonempty_texts(s@, gv.take(i as int)),
        decreases groups.len() - i,
    {
        let t = cap_string(s, groups[i]);
        assert(gv.take(i + 1).drop_last() =~= gv.take(i as int));
        assert(gv.take(i + 1).last() == pair_view(groups@[i as int]));
        if !t.as_str().is_empty() {
            r.push(t);
            assert(strings_view(r@) =~= nonempty_texts(s@, gv.take(i as int)).push(t@));
        }
        i += 1;
    }
    assert(gv.take(groups@.len() as int) =~= gv);
    r
}

fn lead_count_exec(s: &[char], c: char, p: usize) -> (r: usize)
    requires
        p <= s.len(),
    ensures
        r as int == lead_count(s@, c, p as int),
        p <= r <= s.len(),
{
    let mut i = p;
    while i < s.len() && s[i] == c
        invariant
            p <= i <= s.len(),
            lead_count(s@, c, i as int) == lead_count(s@, c, p as int),
        decreases s.len() - i,
    {
        i += 1;
    }
    i
}

fn back_char_exec(s: &[char], e: usize, c: char, lo: usize) -> (r: usize)
    requires
        lo <= e <= s.len(),
    ensures
        r as int == back_char(s@, e as int, c, lo as int),
        lo <= r <= e,
{
    let mut i = e;
    while i > lo && s[i - 1] == c
        invariant
            lo <= i <= e <= s.len(),
            back_char(s@, i as int, c, lo as int) == back_char(s@, e as int, c, lo as int),
        decreases i - lo,
    {
        i -= 1;
    }
    i
}

fn trim_char_exec(s: &[char], c: char) -> (r: Vec<char>)
    ensures
        r@ == trim_char(s@, c),
{
    let a = lead_count_exec(s, c, 0);
    let b = back_char_exec(s, s.len(), c, a);
    let mut r: Vec<char> = Vec::new();
    let mut i = a;
    while i < b
        invariant
            a <= i <= b <= s.len(),
            r@ == s@.subrange(a as int, i as int),
        decreases b - i,
    {
        r.push(s[i]);
        assert(s@.subrange(a as int, i + 1) == s@.subrange(a as int, i as int).push(s@[i as int]));
        i += 1;
    }
    r
}

fn strip_quotes_exec(t: &String) -> (r: String)
    ensures
        r@ == strip_quotes(t@),
{
    let v = chars_of(t.as_str());
    let v1 = trim_char_exec(v.as_slice(), '"');
    let v2 = trim_char_exec(v1.as_slice(), '\'');
    string_of_all(v2.as_slice())
}

fn is_ifthen_kind_exec(k: TokenKind) -> (r: bool)
    ensures
        r == is_ifthen_kind(k),
{
    k == TokenKind::IfThen || k == TokenKind::IfThenE || k == TokenKind::IfThenI
        || k == TokenKind::ElseIf || k == TokenKind::ElseIfE || k == TokenKind::ElseIfI
}

fn is_tag_only_kind_exec(k: TokenKind) -> (r: bool)
    ensures
        r == is_tag_only_kind(k),
{
    k == TokenKind::Else || k == TokenKind::EndIf
}

fn is_eval_kind_exec(k: TokenKind) -> (r: bool)
    ensures
        r == is_eval_kind(k),
{
    k == TokenKind::Eval || k == TokenKind::EvalGlobal
}

/// The captures of `c` lie inside `s`.
pub open spec fn caps_in_bounds(c: CapsExec, n: int) -> bool {
    &&& (c.tag matches Some(g) ==> g.0 <= g.1 <= n)
    &&& forall|j: int| 0 <= j < c.groups@.len() ==> (#[trigger] c.groups@[j]).0 <= c.groups@[j].1 <= n
}

/// Capture ranges that lie inside a text of length `n`.
pub open spec fn caps_ok(c: Caps, n: int) -> bool {
    &&& (c.tag matches Some(g) ==> 0 <= g.0 <= g.1 <= n)
    &&& forall|j: int| 0 <= j < c.groups.len() ==> 0 <= (#[trigger] c.groups[j]).0 <= c.groups[j].1 <= n
}

proof fn lemma_suffix_end(s: Seq<char>, p: int, sfx: Seq<Seq<char>>, j: int)
    requires
        0 <= p <= s.len(),
    ensures
        p <= suffix_end(s, p, sfx, j) <= s.len(),
    decreases sfx.len() - j,
{
    if 0 <= j < sfx.len() && !kw_at(s, p, sfx[j]) {
        lemma_suffix_end(s, p, sfx, j + 1);
    }
}

proof fn lemma_caps_in_bounds(i: int, s: Seq<char>)
    requires
        0 <= i < n_patterns(),
    ensures
        pattern_match(i, s) matches Some(c) ==> caps_ok(c, s.len() as int),
{
    let pt = pattern(i);
    if let Some(p) = kw_end(s, pt.kw, pt.suffixes) {
        lemma_suffix_end(s, 1 + pt.kw.len() as int, pt.suffixes, 0);
        lemma_ws_end(s, p);
        lemma_nonws_end(s, ws_end(s, p));
        lemma_ws_end(s, nonws_end(s, ws_end(s, p)));
        lemma_nonws_end(s, p);
        if 0 <= p < s.len() && s[p] == '.' {
            lemma_word_end(s, p + 1);
        }
        let p2 = tag_at(s, p).1;
        lemma_ws_end(s, p2);
        lemma_nonws_end(s, ws_end(s, p2));
        lemma_ws_end(s, nonws_end(s, ws_end(s, p2)));
        assert forall|x: int| 0 <= x <= s.len() implies x <= #[trigger] dot_end(s, x) <= s.len() by {
            lemma_dot_end(s, x);
        }
    }
}

fn directive_args_exec(k: TokenKind, s: &[char], c: &CapsExec) -> (r: Vec<String>)
    requires
        caps_in_bounds(*c, s@.len() as int),
    ensures
        strings_view(r@) == directive_args(k, s@, caps_view(*c)),
{
    if is_ifthen_kind_exec(k) {
        let mut r: Vec<String> = Vec::new();
        r.push(tag_string(s, c));
        r.push(group_string(s, c, 0));
        assert(strings_view(r@) =~= directive_args(k, s@, caps_view(*c)));
        r
    } else if is_tag_only_kind_exec(k) {
        let mut r: Vec<String> = Vec::new();
        r.push(tag_string(s, c));
        assert(strings_view(r@) =~= directive_args(k, s@, caps_view(*c)));
        r
    } else if is_eval_kind_exec(k) {
        let mut r: Vec<String> = Vec::new();
        r.push(tag_string(s, c));
        r.push(group_string(s, c, 0));
        r.push(group_string(s, c, 1));
        assert(strings_view(r@) =~= directive_args(k, s@, caps_view(*c)));
        r
    } else {
        let mut a = nonempty_strings(s, &c.groups);
        if (k == TokenKind::Include || k == TokenKind::BatInclude) && a.len() > 0 {
            let q = strip_quotes_exec(&a[0]);
            a.set(0, q);
            assert(strings_view(a@) =~= directive_args(k, s@, caps_view(*c)));
        }
        a
    }
}

/// Recognises the directive text `s` (a line without its leading
/// whitespace and line break) and builds its token. A `(.*)` capture
/// stops at a line feed, so text after one is left out of the arguments.
pub fn match_directive(s: &[char], loc: SourceLocation) -> (r: Token)
    ensures
        r.kind == directive(s@).0,
        strings_view(r.args@) == directive(s@).1,
        r.raw@ == s@,
        r.loc == loc,
{
    reveal(directive);
    let mut i: usize = 0;
    while i < 33
        invariant
            i <= n_patterns(),
            first_match(s@, i as int) == first_match(s@, 0),
            directive(s@) == first_match(s@, 0),
        decreases 33 - i,
    {
        match pattern_match_exec(i, s) {
            Some(c) => {
                let (kind, _kw, _sfx, _shape) = pattern_exec(i);
                proof {
                    lemma_caps_in_bounds(i as int, s@);
                    let cv = caps_view(c);
                    assert forall|j: int| 0 <= j < c.groups@.len() implies (#[trigger] c.groups@[j]).0
                        <= c.groups@[j].1 <= s@.len() by {
                        assert(cv.groups[j] == pair_view(c.groups@[j]));
                    }
                }
                let args = directive_args_exec(kind, s, &c);
                let raw = string_of_all(s);
                return Token { kind, raw, loc, args };
            },
            None => {},
        }
        i += 1;
    }
    let raw = string_of_all(s);
    Token { kind: TokenKind::DollarOther, raw, loc, args: Vec::new() }
}

} // verus!
