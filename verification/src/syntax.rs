//! A plain model of the syntax tree of the GAMS body text, and what the
//! editor reads from it: the declared symbols, the references to a name,
//! and the syntax errors.
//!
//! The tree holds for each node what the logic reads: its kind, the field
//! under which its parent holds it, its start and end (row and column, and
//! bytes), its text and its error flags, and its children in order.

use crate::document::SourceMap;
use crate::symbols::{
    collect_dollar_vars, opt_view, sym_view, syms_view, vars_from, vars_view, SymSpec, Symbol,
    SymbolKind, SymbolTable,
};
use crate::text::{
    chars_of, lowercase, push_str, string_of, to_lower, trim_end_char, trim_end_char_exec,
};
use crate::types::{SourceLocation, Token};
use vstd::prelude::*;

verus! {

// ---------------------------------------------------------------------------
// The tree
// ---------------------------------------------------------------------------

/// A position in the body text: 0-based row and column (in bytes).
#[derive(Debug, Clone, Copy, PartialEq, Eq, Structural)]
pub struct TextPoint {
    pub row: usize,
    pub column: usize,
}

/// A node of the syntax tree.
#[derive(Debug)]
pub struct SyntaxNode {
    /// The grammar's name for the node (`"identifier"`, `"set_declaration"`, …).
    pub kind: String,
    /// The field under which the parent holds this node, if any.
    pub field: Option<String>,
    pub start: TextPoint,
    pub end: TextPoint,
    pub start_byte: usize,
    pub end_byte: usize,
    /// The node's text, when it is valid UTF-8.
    pub text: Option<String>,
    /// The parser could not make sense of this part of the text.
    pub is_error: bool,
    /// The parser inserted this node to recover from an error.
    pub is_missing: bool,
    pub children: Vec<SyntaxNode>,
}

/// The node's text, or the empty text when it has none.
pub open spec fn text_or_empty(n: SyntaxNode) -> Seq<char> {
    match n.text {
        Some(t) => t@,
        None => seq![],
    }
}

/// Index of the first node of `cs` of kind `k`, or `cs.len()`.
pub open spec fn first_of_kind(cs: Seq<SyntaxNode>, k: Seq<char>) -> int
    decreases cs.len(),
{
    if cs.len() == 0 {
        0
    } else if cs[0].kind@ == k {
        0
    } else {
        1 + first_of_kind(cs.drop_first(), k)
    }
}

/// Index of the first node of `cs` held under field `f`, or `cs.len()`.
pub open spec fn first_with_field(cs: Seq<SyntaxNode>, f: Seq<char>) -> int
    decreases cs.len(),
{
    if cs.len() == 0 {
        0
    } else if cs[0].field is Some && cs[0].field.unwrap()@ == f {
        0
    } else {
        1 + first_with_field(cs.drop_first(), f)
    }
}

pub proof fn lemma_first_of_kind(cs: Seq<SyntaxNode>, k: Seq<char>)
    ensures
        0 <= first_of_kind(cs, k) <= cs.len(),
        forall|j: int| 0 <= j < first_of_kind(cs, k) ==> #[trigger] cs[j].kind@ != k,
        first_of_kind(cs, k) < cs.len() ==> cs[first_of_kind(cs, k)].kind@ == k,
    decreases cs.len(),
{
    if cs.len() > 0 && cs[0].kind@ != k {
        lemma_first_of_kind(cs.drop_first(), k);
        assert forall|j: int| 1 <= j < first_of_kind(cs, k) implies #[trigger] cs[j].kind@ != k by {
            assert(cs[j] == cs.drop_first()[j - 1]);
        }
    }
}

pub proof fn lemma_first_with_field(cs: Seq<SyntaxNode>, f: Seq<char>)
    ensures
        0 <= first_with_field(cs, f) <= cs.len(),
        forall|j: int|
            0 <= j < first_with_field(cs, f) ==> !(#[trigger] cs[j].field is Some && cs[j].field.unwrap()@
                == f),
        first_with_field(cs, f) < cs.len() ==> cs[first_with_field(cs, f)].field is Some
            && cs[first_with_field(cs, f)].field.unwrap()@ == f,
    decreases cs.len(),
{
    if cs.len() > 0 && !(cs[0].field is Some && cs[0].field.unwrap()@ == f) {
        lemma_first_with_field(cs.drop_first(), f);
        assert forall|j: int| 1 <= j < first_with_field(cs, f) implies !(
        #[trigger] cs[j].field is Some && cs[j].field.unwrap()@ == f) by {
            assert(cs[j] == cs.drop_first()[j - 1]);
        }
    }
}

/// Whether `a` and `b` are the same sequence of characters.
pub(crate) fn same_chars(a: &str, b: &str) -> (r: bool)
    ensures
        r == (a@ == b@),
{
    let x = chars_of(a);
    let y = chars_of(b);
    if x.len() != y.len() {
        return false;
    }
    let mut i: usize = 0;
    while i < x.len()
        invariant
            x@ == a@,
            y@ == b@,
            x@.len() == y@.len(),
            i <= x@.len(),
            forall|j: int| 0 <= j < i ==> x@[j] == y@[j],
        decreases x@.len() - i,
    {
        if x[i] != y[i] {
            return false;
        }
        i += 1;
    }
    assert(x@ == y@);
    true
}

/// Index of the first child of `n` of kind `k`.
pub(crate) fn first_of_kind_exec(cs: &Vec<SyntaxNode>, k: &str) -> (r: usize)
    ensures
        r == first_of_kind(cs@, k@),
{
    proof {
        lemma_first_of_kind(cs@, k@);
    }
    let mut i: usize = 0;
    while i < cs.len()
        invariant
            i <= cs@.len(),
            forall|j: int| 0 <= j < i ==> #[trigger] cs@[j].kind@ != k@,
            i <= first_of_kind(cs@, k@) <= cs@.len(),
            first_of_kind(cs@, k@) < cs@.len() ==> cs@[first_of_kind(cs@, k@)].kind@ == k@,
            forall|j: int| 0 <= j < first_of_kind(cs@, k@) ==> #[trigger] cs@[j].kind@ != k@,
        decreases cs@.len() - i,
    {
        if same_chars(cs[i].kind.as_str(), k) {
            return i;
        }
        i += 1;
    }
    i
}

/// Index of the first child held under field `f`.
pub(crate) fn first_with_field_exec(cs: &Vec<SyntaxNode>, f: &str) -> (r: usize)
    ensures
        r == first_with_field(cs@, f@),
{
    proof {
        lemma_first_with_field(cs@, f@);
    }
    let mut i: usize = 0;
    while i < cs.len()
        invariant
            i <= cs@.len(),
            i <= first_with_field(cs@, f@) <= cs@.len(),
            first_with_field(cs@, f@) < cs@.len() ==> cs@[first_with_field(cs@, f@)].field is Some
                && cs@[first_with_field(cs@, f@)].field.unwrap()@ == f@,
            forall|j: int|
                0 <= j < first_with_field(cs@, f@) ==> !(#[trigger] cs@[j].field is Some
                    && cs@[j].field.unwrap()@ == f@),
        decreases cs@.len() - i,
    {
        match &cs[i].field {
            Some(name) => {
                if same_chars(name.as_str(), f) {
                    return i;
                }
            },
            None => {},
        }
        i += 1;
    }
    i
}

// ---------------------------------------------------------------------------
// Locations
// ---------------------------------------------------------------------------

/// Every node of the tree starts on a row and a column, and ends on a row,
/// below `u32::MAX`, so that their 1-based numbers fit a `u32`.
pub open spec fn fits(n: SyntaxNode) -> bool
    decreases n,
{
    &&& n.start.row < u32::MAX
    &&& n.start.column < u32::MAX
    &&& n.end.row < u32::MAX
    &&& forall|i: int| 0 <= i < n.children@.len() ==> fits(#[trigger] n.children@[i])
}

/// Whether every node of the tree starts on a row and a column, and ends
/// on a row, below `u32::MAX` (the condition the tree's users ask for).
pub fn tree_fits(n: &SyntaxNode) -> (r: bool)
    ensures
        r == fits(*n),
    decreases n,
{
    if n.start.row >= 0xffff_ffff || n.start.column >= 0xffff_ffff || n.end.row >= 0xffff_ffff {
        return false;
    }
    let cs = &n.children;
    let mut i: usize = 0;
    while i < cs.len()
        invariant
            i <= cs@.len(),
            *cs == n.children,
            forall|j: int| 0 <= j < i ==> fits(#[trigger] cs@[j]),
        decreases cs@.len() - i,
    {
        if !tree_fits(&cs[i]) {
            return false;
        }
        i += 1;
    }
    true
}

/// The location in the original file of body point `p`: the original line
/// of its row (or the row's own 1-based number when the map has no such
/// row) and its 1-based column.
pub open spec fn map_loc_spec(p: TextPoint, sm: SourceMap) -> SourceLocation {
    SourceLocation {
        file: sm.orig_file,
        line: if p.row < sm.body_line_to_orig@.len() {
            sm.body_line_to_orig@[p.row as int]
        } else {
            (p.row + 1) as u32
        },
        col: (p.column + 1) as u32,
        length: 0,
    }
}

/// The location in the original file of body point `p`.
pub fn map_loc(p: TextPoint, sm: &SourceMap) -> (r: SourceLocation)
    requires
        p.row < u32::MAX,
        p.column < u32::MAX,
    ensures
        r == map_loc_spec(p, *sm),
{
    let line = match sm.orig_line(p.row) {
        Some(l) => l,
        None => p.row as u32 + 1,
    };
    SourceLocation::new(sm.orig_file.clone(), line, p.column as u32 + 1)
}

// ---------------------------------------------------------------------------
// Names and descriptions
// ---------------------------------------------------------------------------

pub open spec fn kind_identifier() -> Seq<char> {
    "identifier"@
}

pub open spec fn kind_identifier_with_domain() -> Seq<char> {
    "identifier_with_domain"@
}

/// The first `identifier` inside the first node of `cs` of kind
/// `identifier_with_domain` that holds one.
pub open spec fn domain_ident(cs: Seq<SyntaxNode>) -> Option<SyntaxNode>
    decreases cs.len(),
{
    if cs.len() == 0 {
        None
    } else if cs[0].kind@ == kind_identifier_with_domain() && first_of_kind(
        cs[0].children@,
        kind_identifier(),
    ) < cs[0].children@.len() {
        Some(cs[0].children@[first_of_kind(cs[0].children@, kind_identifier())])
    } else {
        domain_ident(cs.drop_first())
    }
}

/// The identifier that names `n`, and its text: the identifier inside its
/// first `identifier_with_domain` child that has one, else its first
/// `identifier` child; none when there is none or its text is unknown.
pub open spec fn name_node(n: SyntaxNode) -> Option<(SyntaxNode, Seq<char>)> {
    let id = match domain_ident(n.children@) {
        Some(id) => Some(id),
        None => {
            let j = first_of_kind(n.children@, kind_identifier());
            if j < n.children@.len() {
                Some(n.children@[j])
            } else {
                None
            }
        },
    };
    match id {
        Some(id) => match id.text {
            Some(t) => Some((id, t@)),
            None => None,
        },
        None => None,
    }
}

fn domain_ident_exec(cs: &Vec<SyntaxNode>) -> (r: Option<&SyntaxNode>)
    ensures
        match domain_ident(cs@) {
            Some(id) => r == Some(&id),
            None => r.is_none(),
        },
{
    let mut i: usize = 0;
    assert(cs@.skip(0) == cs@);
    while i < cs.len()
        invariant
            i <= cs@.len(),
            domain_ident(cs@) == domain_ident(cs@.skip(i as int)),
        decreases cs@.len() - i,
    {
        let c = &cs[i];
        proof {
            let rest = cs@.skip(i as int);
            assert(rest[0] == *c);
            assert(rest.drop_first() == cs@.skip(i + 1));
        }
        if same_chars(c.kind.as_str(), "identifier_with_domain") {
            let j = first_of_kind_exec(&c.children, "identifier");
            if j < c.children.len() {
                return Some(&c.children[j]);
            }
        }
        i += 1;
    }
    None
}

/// The first child of `cs` of kind `identifier_with_domain` that holds an
/// `identifier`.
pub open spec fn domain_node(cs: Seq<SyntaxNode>) -> Option<SyntaxNode>
    decreases cs.len(),
{
    if cs.len() == 0 {
        None
    } else if cs[0].kind@ == kind_identifier_with_domain() && first_of_kind(
        cs[0].children@,
        kind_identifier(),
    ) < cs[0].children@.len() {
        Some(cs[0])
    } else {
        domain_node(cs.drop_first())
    }
}

/// The domain written after a declared name, such as `(i,j)` in `a(i,j)`:
/// the text of the entry's `identifier_with_domain` past the name that
/// opens it; none when the name is written bare.
pub open spec fn domain_of(e: SyntaxNode) -> Option<Seq<char>> {
    match domain_node(e.children@) {
        Some(wd) => {
            let id = wd.children@[first_of_kind(wd.children@, kind_identifier())];
            match (wd.text, id.text) {
                (Some(t), Some(n)) => if n@.len() <= t@.len() && t@.subrange(0, n@.len() as int) == n@ {
                    Some(t@.subrange(n@.len() as int, t@.len() as int))
                } else {
                    None
                },
                _ => None,
            }
        },
        None => None,
    }
}

proof fn lemma_domain_node(cs: Seq<SyntaxNode>)
    ensures
        domain_node(cs) is Some ==> first_of_kind(domain_node(cs).unwrap().children@, kind_identifier())
            < domain_node(cs).unwrap().children@.len(),
    decreases cs.len(),
{
    if cs.len() > 0 {
        lemma_domain_node(cs.drop_first());
    }
}

fn domain_node_exec(cs: &Vec<SyntaxNode>) -> (r: Option<&SyntaxNode>)
    ensures
        match domain_node(cs@) {
            Some(wd) => r == Some(&wd),
            None => r.is_none(),
        },
{
    let mut i: usize = 0;
    assert(cs@.skip(0) == cs@);
    while i < cs.len()
        invariant
            i <= cs@.len(),
            domain_node(cs@) == domain_node(cs@.skip(i as int)),
        decreases cs@.len() - i,
    {
        let c = &cs[i];
        proof {
            let rest = cs@.skip(i as int);
            assert(rest[0] == *c);
            assert(rest.drop_first() == cs@.skip(i + 1));
        }
        if same_chars(c.kind.as_str(), "identifier_with_domain") {
            let j = first_of_kind_exec(&c.children, "identifier");
            if j < c.children.len() {
                return Some(c);
            }
        }
        i += 1;
    }
    None
}

fn domain_exec(e: &SyntaxNode) -> (r: Option<String>)
    ensures
        opt_view(r) == domain_of(*e),
{
    proof {
        lemma_domain_node(e.children@);
    }
    match domain_node_exec(&e.children) {
        Some(wd) => {
            let j = first_of_kind_exec(&wd.children, "identifier");
            let id = &wd.children[j];
            match (&wd.text, &id.text) {
                (Some(t), Some(n)) => {
                    let tv = chars_of(t.as_str());
                    let nv = chars_of(n.as_str());
                    if nv.len() <= tv.len() {
                        let head = string_of(tv.as_slice(), 0, nv.len());
                        if same_chars(head.as_str(), n.as_str()) {
                            return Some(string_of(tv.as_slice(), nv.len(), tv.len()));
                        }
                    }
                    None
                },
                _ => None,
            }
        },
        None => None,
    }
}

/// The identifier that names `n`, and its text.
fn name_node_exec(n: &SyntaxNode) -> (r: Option<(&SyntaxNode, String)>)
    ensures
        match name_node(*n) {
            Some((id, t)) => r is Some && *r.unwrap().0 == id && r.unwrap().1@ == t,
            None => r.is_none(),
        },
{
    let id = match domain_ident_exec(&n.children) {
        Some(id) => Some(id),
        None => {
            let j = first_of_kind_exec(&n.children, "identifier");
            if j < n.children.len() {
                Some(&n.children[j])
            } else {
                None
            }
        },
    };
    match id {
        Some(id) => match &id.text {
            Some(t) => Some((id, t.clone())),
            None => None,
        },
        None => None,
    }
}

/// Index of the first character of `s` from `p` on that is not `c`, or `s.len()`.
pub open spec fn lead_char_end(s: Seq<char>, p: int, c: char) -> int
    decreases s.len() - p,
{
    if p < 0 || p >= s.len() {
        s.len() as int
    } else if s[p] == c {
        lead_char_end(s, p + 1, c)
    } else {
        p
    }
}

/// `s` with every leading and trailing `c` removed (`str::trim_matches`).
pub open spec fn trim_char(s: Seq<char>, c: char) -> Seq<char> {
    let a = lead_char_end(s, 0, c);
    let b = trim_end_char(s, s.len() as int, c);
    if a < b {
        s.subrange(a, b)
    } else {
        seq![]
    }
}

/// A description as written, with its double quotes and then its single
/// quotes stripped from both ends.
pub open spec fn unquote(s: Seq<char>) -> Seq<char> {
    trim_char(trim_char(s, '"'), '\'')
}

fn trim_char_exec(s: &str, c: char) -> (r: String)
    ensures
        r@ == trim_char(s@, c),
{
    let v = chars_of(s);
    let mut a: usize = 0;
    while a < v.len() && v[a] == c
        invariant
            v@ == s@,
            a <= v@.len(),
            lead_char_end(v@, a as int, c) == lead_char_end(v@, 0, c),
        decreases v@.len() - a,
    {
        a += 1;
    }
    let b = trim_end_char_exec(v.as_slice(), v.len(), c);
    if a < b {
        string_of(v.as_slice(), a, b)
    } else {
        String::new()
    }
}

/// The description of a declaration: the text of its first `string`
/// child, unquoted.
pub open spec fn description_of(n: SyntaxNode) -> Option<Seq<char>> {
    let j = first_of_kind(n.children@, "string"@);
    if j < n.children@.len() {
        match n.children@[j].text {
            Some(t) => Some(unquote(t@)),
            None => None,
        }
    } else {
        None
    }
}

fn description_exec(n: &SyntaxNode) -> (r: Option<String>)
    ensures
        opt_view(r) == description_of(*n),
{
    let j = first_of_kind_exec(&n.children, "string");
    if j < n.children.len() {
        match &n.children[j].text {
            Some(t) => {
                let a = trim_char_exec(t.as_str(), '"');
                Some(trim_char_exec(a.as_str(), '\''))
            },
            None => None,
        }
    } else {
        None
    }
}

// ---------------------------------------------------------------------------
// Declarations
// ---------------------------------------------------------------------------

/// The symbol that identifier `id`, written `display`, declares.
pub open spec fn sym_at(
    id: SyntaxNode,
    display: Seq<char>,
    kind: SymbolKind,
    sm: SourceMap,
    description: Option<Seq<char>>,
    domain: Option<Seq<char>>,
) -> SymSpec {
    SymSpec { name: lowercase(display), display, kind, loc: map_loc_spec(id.start, sm), description, domain }
}

fn make_symbol(
    id: &SyntaxNode,
    display: String,
    kind: SymbolKind,
    sm: &SourceMap,
    description: Option<String>,
    domain: Option<String>,
) -> (r: Symbol)
    requires
        fits(*id),
    ensures
        sym_view(r) == sym_at(*id, display@, kind, *sm, opt_view(description), opt_view(domain)),
{
    let name = to_lower(display.as_str());
    Symbol { name, display_name: display, kind, loc: map_loc(id.start, sm), description, domain }
}

/// The symbol an entry (or a single-name declaration) declares: named by
/// its identifier, described by its first string.
pub open spec fn entry_sym(e: SyntaxNode, kind: SymbolKind, sm: SourceMap) -> Option<SymSpec> {
    match name_node(e) {
        Some((id, t)) => Some(sym_at(id, t, kind, sm, description_of(e), domain_of(e))),
        None => None,
    }
}

pub proof fn lemma_name_node_fits(n: SyntaxNode)
    requires
        fits(n),
    ensures
        name_node(n) is Some ==> fits(name_node(n).unwrap().0),
{
    lemma_domain_ident_fits(n.children@);
    lemma_first_of_kind(n.children@, kind_identifier());
}

proof fn lemma_domain_ident_fits(cs: Seq<SyntaxNode>)
    requires
        forall|i: int| 0 <= i < cs.len() ==> fits(#[trigger] cs[i]),
    ensures
        domain_ident(cs) is Some ==> fits(domain_ident(cs).unwrap()),
    decreases cs.len(),
{
    if cs.len() > 0 {
        assert(fits(cs[0]));
        lemma_first_of_kind(cs[0].children@, kind_identifier());
        assert forall|i: int| 0 <= i < cs.drop_first().len() implies fits(
            #[trigger] cs.drop_first()[i],
        ) by {
            assert(cs.drop_first()[i] == cs[i + 1]);
        }
        lemma_domain_ident_fits(cs.drop_first());
    }
}

fn entry_symbol(e: &SyntaxNode, kind: SymbolKind, sm: &SourceMap) -> (r: Option<Symbol>)
    requires
        fits(*e),
    ensures
        match entry_sym(*e, kind, *sm) {
            Some(s) => r is Some && sym_view(r.unwrap()) == s,
            None => r.is_none(),
        },
{
    proof {
        lemma_name_node_fits(*e);
    }
    match name_node_exec(e) {
        Some((id, display)) => {
            let d = description_exec(e);
            let dom = domain_exec(e);
            Some(make_symbol(id, display, kind, sm, d, dom))
        },
        None => None,
    }
}

/// `s` ends with `suffix`.
pub open spec fn ends_with(s: Seq<char>, suffix: Seq<char>) -> bool {
    s.len() >= suffix.len() && s.subrange(s.len() - suffix.len(), s.len() as int) == suffix
}

pub(crate) fn ends_with_exec(s: &str, suffix: &str) -> (r: bool)
    ensures
        r == ends_with(s@, suffix@),
{
    let v = chars_of(s);
    let w = chars_of(suffix);
    if v.len() < w.len() {
        return false;
    }
    let off = v.len() - w.len();
    let mut i: usize = 0;
    while i < w.len()
        invariant
            v@ == s@,
            w@ == suffix@,
            off + w@.len() == v@.len(),
            v@.len() <= usize::MAX,
            i <= w@.len(),
            forall|j: int| 0 <= j < i ==> v@[off + j] == w@[j],
        decreases w@.len() - i,
    {
        if v[off + i] != w[i] {
            assert(v@.subrange(off as int, v@.len() as int)[i as int] != w@[i as int]);
            return false;
        }
        i += 1;
    }
    assert(v@.subrange(off as int, v@.len() as int) == w@);
    true
}

/// The symbols that the `*_entry` children `cs` of a declaration declare.
pub open spec fn entries_syms(cs: Seq<SyntaxNode>, kind: SymbolKind, sm: SourceMap) -> Seq<SymSpec>
    decreases cs.len(),
{
    if cs.len() == 0 {
        seq![]
    } else {
        let rest = entries_syms(cs.drop_last(), kind, sm);
        let c = cs.last();
        if ends_with(c.kind@, "_entry"@) {
            match entry_sym(c, kind, sm) {
                Some(s) => rest.push(s),
                None => rest,
            }
        } else {
            rest
        }
    }
}

fn entries(decl: &SyntaxNode, kind: SymbolKind, sm: &SourceMap, out: &mut Vec<Symbol>)
    requires
        fits(*decl),
    ensures
        syms_view(final(out)@) == syms_view(old(out)@) + entries_syms(decl.children@, kind, *sm),
{
    let cs = &decl.children;
    let mut i: usize = 0;
    let ghost start = syms_view(out@);
    while i < cs.len()
        invariant
            i <= cs@.len(),
            *cs == decl.children,
            fits(*decl),
            syms_view(out@) == start + entries_syms(cs@.take(i as int), kind, *sm),
        decreases cs@.len() - i,
    {
        assert(cs@.take(i + 1).drop_last() == cs@.take(i as int));
        let c = &cs[i];
        assert(fits(*c));
        if ends_with_exec(c.kind.as_str(), "_entry") {
            match entry_symbol(c, kind, sm) {
                Some(sym) => {
                    let ghost before = out@;
                    out.push(sym);
                    assert(syms_view(out@) == syms_view(before).push(sym_view(sym)));
                },
                None => {},
            }
        }
        i += 1;
    }
    assert(cs@.take(cs@.len() as int) == cs@);
}

/// A single-name declaration (table, variable table): its own identifier
/// child names it.
pub open spec fn single_syms(decl: SyntaxNode, kind: SymbolKind, sm: SourceMap) -> Seq<SymSpec> {
    match entry_sym(decl, kind, sm) {
        Some(s) => seq![s],
        None => seq![],
    }
}

fn single(decl: &SyntaxNode, kind: SymbolKind, sm: &SourceMap, out: &mut Vec<Symbol>)
    requires
        fits(*decl),
    ensures
        syms_view(final(out)@) == syms_view(old(out)@) + single_syms(*decl, kind, *sm),
{
    match entry_symbol(decl, kind, sm) {
        Some(sym) => {
            let ghost before = out@;
            out.push(sym);
            assert(syms_view(out@) == syms_view(before).push(sym_view(sym)));
        },
        None => {
            assert(syms_view(out@) == syms_view(out@) + Seq::<SymSpec>::empty());
        },
    }
}

/// The identifier of an equation definition's `name` field, and its text:
/// the first `identifier` inside an `identifier_with_domain` (when it has
/// one with a text), else the field's node itself with its text (empty
/// when unknown).
pub open spec fn eq_name(nf: SyntaxNode) -> (SyntaxNode, Seq<char>) {
    let j = first_of_kind(nf.children@, kind_identifier());
    if nf.kind@ == kind_identifier_with_domain() && j < nf.children@.len()
        && nf.children@[j].text is Some {
        (nf.children@[j], nf.children@[j].text.unwrap()@)
    } else {
        (nf, text_or_empty(nf))
    }
}

/// An equation definition declares the equation its `name` field names;
/// it has no description.
pub open spec fn eq_def_syms(def: SyntaxNode, sm: SourceMap) -> Seq<SymSpec> {
    let f = first_with_field(def.children@, "name"@);
    if f < def.children@.len() {
        let (id, t) = eq_name(def.children@[f]);
        seq![sym_at(id, t, SymbolKind::Equation, sm, None, None)]
    } else {
        seq![]
    }
}

pub(crate) fn text_or_empty_exec(n: &SyntaxNode) -> (r: String)
    ensures
        r@ == text_or_empty(*n),
{
    match &n.text {
        Some(t) => t.clone(),
        None => String::new(),
    }
}

fn eq_def(def: &SyntaxNode, sm: &SourceMap, out: &mut Vec<Symbol>)
    requires
        fits(*def),
    ensures
        syms_view(final(out)@) == syms_view(old(out)@) + eq_def_syms(*def, *sm),
{
    let f = first_with_field_exec(&def.children, "name");
    if f >= def.children.len() {
        assert(syms_view(out@) == syms_view(out@) + Seq::<SymSpec>::empty());
        return;
    }
    let nf = &def.children[f];
    assert(fits(*nf));
    let j = first_of_kind_exec(&nf.children, "identifier");
    proof {
        lemma_first_of_kind(nf.children@, kind_identifier());
        if j < nf.children@.len() {
            assert(fits(nf.children@[j as int]));
        }
    }
    let mut picked: Option<(&SyntaxNode, String)> = None;
    if same_chars(nf.kind.as_str(), "identifier_with_domain") && j < nf.children.len() {
        match &nf.children[j].text {
            Some(t) => {
                picked = Some((&nf.children[j], t.clone()));
            },
            None => {},
        }
    }
    let (id, display) = match picked {
        Some(p) => p,
        None => (nf, text_or_empty_exec(nf)),
    };
    let sym = make_symbol(id, display, SymbolKind::Equation, sm, None, None);
    let ghost before = out@;
    out.push(sym);
    assert(syms_view(out@) == syms_view(before).push(sym_view(sym)));
}

/// The `identifier` nodes of `cs`, in order.
pub open spec fn idents(cs: Seq<SyntaxNode>) -> Seq<SyntaxNode>
    decreases cs.len(),
{
    if cs.len() == 0 {
        seq![]
    } else if cs.last().kind@ == kind_identifier() {
        idents(cs.drop_last()).push(cs.last())
    } else {
        idents(cs.drop_last())
    }
}

pub proof fn lemma_idents_fit(cs: Seq<SyntaxNode>)
    requires
        forall|i: int| 0 <= i < cs.len() ==> fits(#[trigger] cs[i]),
    ensures
        forall|i: int| 0 <= i < idents(cs).len() ==> fits(#[trigger] idents(cs)[i]),
    decreases cs.len(),
{
    if cs.len() > 0 {
        let init = cs.drop_last();
        assert forall|i: int| 0 <= i < init.len() implies fits(#[trigger] init[i]) by {
            assert(init[i] == cs[i]);
        }
        lemma_idents_fit(init);
        assert(fits(cs[cs.len() - 1]));
        let ids = idents(cs);
        let pre = idents(init);
        if cs.last().kind@ == kind_identifier() {
            assert forall|i: int| 0 <= i < ids.len() implies fits(#[trigger] ids[i]) by {
                if i < pre.len() {
                    assert(ids[i] == pre[i]);
                }
            }
        }
    }
}

/// The aliases `alias(i, j, k)` declares: every identifier but the first,
/// described as an alias of the first.
pub open spec fn alias_syms(decl: SyntaxNode, sm: SourceMap) -> Seq<SymSpec> {
    let ids = idents(decl.children@);
    if ids.len() < 2 {
        seq![]
    } else {
        let desc = "alias of "@ + text_or_empty(ids[0]);
        Seq::new(
            (ids.len() - 1) as nat,
            |k: int| sym_at(ids[k + 1], text_or_empty(ids[k + 1]), SymbolKind::Alias, sm, Some(desc), None),
        )
    }
}

pub(crate) fn idents_exec(cs: &Vec<SyntaxNode>) -> (r: Vec<&SyntaxNode>)
    ensures
        r@.map_values(|n: &SyntaxNode| *n) == idents(cs@),
{
    let mut out: Vec<&SyntaxNode> = Vec::new();
    let mut i: usize = 0;
    while i < cs.len()
        invariant
            i <= cs@.len(),
            out@.map_values(|n: &SyntaxNode| *n) == idents(cs@.take(i as int)),
        decreases cs@.len() - i,
    {
        assert(cs@.take(i + 1).drop_last() == cs@.take(i as int));
        let c = &cs[i];
        if same_chars(c.kind.as_str(), "identifier") {
            let ghost before = out@;
            out.push(c);
            assert(out@.map_values(|n: &SyntaxNode| *n) == before.map_values(|n: &SyntaxNode| *n).push(
                *c,
            ));
        }
        i += 1;
    }
    assert(cs@.take(cs@.len() as int) == cs@);
    out
}

fn alias(decl: &SyntaxNode, sm: &SourceMap, out: &mut Vec<Symbol>)
    requires
        fits(*decl),
    ensures
        syms_view(final(out)@) == syms_view(old(out)@) + alias_syms(*decl, *sm),
{
    let ids = idents_exec(&decl.children);
    let ghost idv = ids@.map_values(|n: &SyntaxNode| *n);
    proof {
        lemma_idents_fit(decl.children@);
    }
    if ids.len() < 2 {
        assert(syms_view(out@) == syms_view(out@) + Seq::<SymSpec>::empty());
        return;
    }
    assert(idv[0] == *ids@[0]);
    let source_name = text_or_empty_exec(ids[0]);
    let mut desc = String::new();
    push_str(&mut desc, "alias of ");
    push_str(&mut desc, source_name.as_str());
    let ghost start = syms_view(out@);
    let ghost expected = alias_syms(*decl, *sm);
    let mut k: usize = 1;
    while k < ids.len()
        invariant
            1 <= k <= ids@.len(),
            idv == ids@.map_values(|n: &SyntaxNode| *n),
            idv == idents(decl.children@),
            forall|i: int| 0 <= i < idv.len() ==> fits(#[trigger] idv[i]),
            desc@ == "alias of "@ + text_or_empty(idv[0]),
            expected == alias_syms(*decl, *sm),
            expected.len() == idv.len() - 1,
            syms_view(out@) == start + expected.subrange(0, k - 1),
        decreases ids@.len() - k,
    {
        let id = ids[k];
        assert(idv[k as int] == *id);
        let display = text_or_empty_exec(id);
        let sym = make_symbol(id, display, SymbolKind::Alias, sm, Some(desc.clone()), None);
        let ghost before = out@;
        out.push(sym);
        assert(expected[k - 1] == sym_view(sym));
        assert(expected.subrange(0, k as int) == expected.subrange(0, k - 1).push(expected[k - 1]));
        assert(syms_view(out@) == syms_view(before).push(sym_view(sym)));
        k += 1;
    }
    assert(expected.subrange(0, expected.len() as int) == expected);
}

// ---------------------------------------------------------------------------
// Walking the tree
// ---------------------------------------------------------------------------

/// The symbols the tree below `n` declares, in source order: each kind of
/// declaration is read by its own rule, and any other node is looked
/// through.
pub open spec fn visit_syms(n: SyntaxNode, sm: SourceMap) -> Seq<SymSpec>
    decreases n,
{
    let k = n.kind@;
    if k == "set_declaration"@ {
        entries_syms(n.children@, SymbolKind::SetDecl, sm)
    } else if k == "scalar_declaration"@ {
        entries_syms(n.children@, SymbolKind::Scalar, sm)
    } else if k == "parameter_declaration"@ {
        entries_syms(n.children@, SymbolKind::Parameter, sm)
    } else if k == "variable_declaration"@ {
        entries_syms(n.children@, SymbolKind::Variable, sm)
    } else if k == "equation_declaration"@ {
        entries_syms(n.children@, SymbolKind::Equation, sm)
    } else if k == "model_declaration"@ {
        entries_syms(n.children@, SymbolKind::Model, sm)
    } else if k == "acronym_declaration"@ {
        entries_syms(n.children@, SymbolKind::Acronym, sm)
    } else if k == "table_declaration"@ {
        single_syms(n, SymbolKind::Parameter, sm)
    } else if k == "variable_table_declaration"@ {
        single_syms(n, SymbolKind::Variable, sm)
    } else if k == "equation_definition"@ {
        eq_def_syms(n, sm)
    } else if k == "alias_declaration"@ {
        alias_syms(n, sm)
    } else {
        visit_children(n.children@, sm)
    }
}

/// The symbols the trees `cs` declare, one after the other.
pub open spec fn visit_children(cs: Seq<SyntaxNode>, sm: SourceMap) -> Seq<SymSpec>
    decreases cs,
{
    if cs.len() == 0 {
        seq![]
    } else {
        visit_children(cs.drop_last(), sm) + visit_syms(cs.last(), sm)
    }
}

fn visit(node: &SyntaxNode, sm: &SourceMap, out: &mut Vec<Symbol>)
    requires
        fits(*node),
    ensures
        syms_view(final(out)@) == syms_view(old(out)@) + visit_syms(*node, *sm),
    decreases node,
{
    let k = node.kind.as_str();
    if same_chars(k, "set_declaration") {
        entries(node, SymbolKind::SetDecl, sm, out);
    } else if same_chars(k, "scalar_declaration") {
        entries(node, SymbolKind::Scalar, sm, out);
    } else if same_chars(k, "parameter_declaration") {
        entries(node, SymbolKind::Parameter, sm, out);
    } else if same_chars(k, "variable_declaration") {
        entries(node, SymbolKind::Variable, sm, out);
    } else if same_chars(k, "equation_declaration") {
        entries(node, SymbolKind::Equation, sm, out);
    } else if same_chars(k, "model_declaration") {
        entries(node, SymbolKind::Model, sm, out);
    } else if same_chars(k, "acronym_declaration") {
        entries(node, SymbolKind::Acronym, sm, out);
    } else if same_chars(k, "table_declaration") {
        single(node, SymbolKind::Parameter, sm, out);
    } else if same_chars(k, "variable_table_declaration") {
        single(node, SymbolKind::Variable, sm, out);
    } else if same_chars(k, "equation_definition") {
        eq_def(node, sm, out);
    } else if same_chars(k, "alias_declaration") {
        alias(node, sm, out);
    } else {
        let cs = &node.children;
        let ghost start = syms_view(out@);
        let mut i: usize = 0;
        while i < cs.len()
            invariant
                i <= cs@.len(),
                *cs == node.children,
                fits(*node),
                syms_view(out@) == start + visit_children(cs@.take(i as int), *sm),
            decreases cs@.len() - i,
        {
            assert(cs@.take(i + 1).drop_last() == cs@.take(i as int));
            assert(cs@.take(i + 1).last() == cs@[i as int]);
            assert(fits(cs@[i as int]));
            visit(&cs[i], sm, out);
            i += 1;
        }
        assert(cs@.take(cs@.len() as int) == cs@);
    }
}

/// Walk `root` and collect all GAMS symbol declarations, then collect
/// dollar-layer variables from `tokens`.
pub fn collect_symbols(root: &SyntaxNode, source_map: &SourceMap, tokens: &[Token]) -> (r: SymbolTable)
    requires
        fits(*root),
    ensures
        syms_view(r.symbols@) == visit_syms(*root, *source_map),
        vars_view(r.dollar_vars@) == vars_from(tokens@),
{
    let mut table = SymbolTable::new();
    assert(syms_view(table.symbols@) == Seq::<SymSpec>::empty());
    visit(root, source_map, &mut table.symbols);
    table.dollar_vars = collect_dollar_vars(tokens);
    table
}

} // verus!
