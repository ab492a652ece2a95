//! Editor features that work on plain text: hover texts for symbols and
//! dollar variables, and finding the `%name%` reference under the cursor.

use crate::document::SourceMap;
use crate::evaluator::{next_pct, next_pct_exec};
use crate::symbols::{kind_label, Symbol, SymbolKind, SymbolTable};
use crate::syntax::{
    ends_with, ends_with_exec, first_of_kind, first_of_kind_exec, first_with_field,
    first_with_field_exec, fits, idents, idents_exec, kind_identifier,
    same_chars, SyntaxNode, TextPoint,
};
use crate::text::{chars_of, lowercase, push_str, string_of, to_lower};
use crate::types::{Diagnostic, DollarVariable, Scope, Severity};
use vstd::prelude::*;
use vstd::utf8::{encode_scalar, encode_utf8};

verus! {

// ---------------------------------------------------------------------------
// Coordinates
// ---------------------------------------------------------------------------

/// A position as the editor counts it: 0-based line and character.
#[derive(Debug, Clone, Copy, PartialEq, Eq, Structural)]
pub struct LspPosition {
    pub line: u32,
    pub character: u32,
}

/// A span between two editor positions.
#[derive(Debug, Clone, Copy, PartialEq, Eq, Structural)]
pub struct LspRange {
    pub start: LspPosition,
    pub end: LspPosition,
}

/// Index of the first entry of `m` from `i` on that is `l`, or `m.len()`.
pub open spec fn first_row(m: Seq<u32>, l: u32, i: int) -> int
    decreases m.len() - i,
{
    if i < 0 || i >= m.len() {
        m.len() as int
    } else if m[i] == l {
        i
    } else {
        first_row(m, l, i + 1)
    }
}

proof fn lemma_first_row_at(m: Seq<u32>, l: u32, i: int, k: int)
    requires
        0 <= i <= k <= m.len(),
        forall|j: int| i <= j < k ==> m[j] != l,
        k < m.len() ==> m[k] == l,
    ensures
        first_row(m, l, i) == k,
    decreases k - i,
{
    if i < k {
        lemma_first_row_at(m, l, i + 1, k);
    }
}

/// The body point of an editor position in the original file: the first
/// body row that comes from its line, at the same column; none when the
/// line is not part of the body.
pub open spec fn body_point_of(map: Seq<u32>, pos: LspPosition) -> Option<TextPoint> {
    let row = first_row(map, (pos.line + 1) as u32, 0);
    if row < map.len() {
        Some(TextPoint { row: row as usize, column: pos.character as usize })
    } else {
        None
    }
}

/// Convert an editor position (0-based line/char, original file coords) to
/// a body point (0-based row/col, body-text coords).
pub fn lsp_to_body_point(source_map: &SourceMap, pos: LspPosition) -> (r: Option<TextPoint>)
    requires
        pos.line < u32::MAX,
    ensures
        r == body_point_of(source_map.body_line_to_orig@, pos),
{
    let orig_line = pos.line + 1;
    let m = &source_map.body_line_to_orig;
    match source_map.orig_to_body_line(orig_line) {
        Some(row) => {
            proof {
                lemma_first_row_at(m@, orig_line, 0, row as int);
            }
            Some(TextPoint { row, column: pos.character as usize })
        },
        None => {
            proof {
                lemma_first_row_at(m@, orig_line, 0, m@.len() as int);
            }
            None
        },
    }
}

/// The editor position of body point `p`: the original line of its row
/// (its own row when the map has no such row), at its column.
pub open spec fn lsp_of(map: Seq<u32>, p: TextPoint) -> LspPosition {
    LspPosition {
        line: if p.row < map.len() {
            if map[p.row as int] == 0 {
                0
            } else {
                (map[p.row as int] - 1) as u32
            }
        } else {
            p.row as u32
        },
        character: p.column as u32,
    }
}

/// Convert a body point (0-based row/col, body-text coords) to an editor
/// position (0-based line/char, original file coords).
pub fn body_point_to_lsp(source_map: &SourceMap, point: TextPoint) -> (r: LspPosition)
    requires
        point.row < u32::MAX,
    ensures
        r == lsp_of(source_map.body_line_to_orig@, point),
{
    let orig_line = match source_map.orig_line(point.row) {
        Some(l) => l,
        None => point.row as u32 + 1,
    };
    LspPosition { line: orig_line.saturating_sub(1), character: point.column as u32 }
}

/// The editor range of a node.
pub open spec fn node_range_of(map: Seq<u32>, n: SyntaxNode) -> LspRange {
    LspRange { start: lsp_of(map, n.start), end: lsp_of(map, n.end) }
}

/// Build an editor range from a node via the source map.
pub fn node_range(source_map: &SourceMap, node: &SyntaxNode) -> (r: LspRange)
    requires
        node.start.row < u32::MAX,
        node.end.row < u32::MAX,
    ensures
        r == node_range_of(source_map.body_line_to_orig@, *node),
{
    LspRange {
        start: body_point_to_lsp(source_map, node.start),
        end: body_point_to_lsp(source_map, node.end),
    }
}

/// The range a symbol's name covers in the original file: from its
/// location (made 0-based) over as many characters as its name has bytes.
pub open spec fn symbol_range_of(sym: Symbol) -> LspRange {
    let line = if sym.loc.line == 0 { 0 } else { (sym.loc.line - 1) as u32 };
    let ch = if sym.loc.col == 0 { 0 } else { (sym.loc.col - 1) as u32 };
    LspRange {
        start: LspPosition { line, character: ch },
        end: LspPosition {
            line,
            character: (ch + (encode_utf8(sym.display_name@).len() as usize) as u32) as u32,
        },
    }
}

/// The range of a symbol's name, for turning it into an editor location.
pub fn symbol_range(sym: &Symbol) -> (r: LspRange)
    requires
        (if sym.loc.col == 0 { 0 } else { sym.loc.col - 1 }) + ((encode_utf8(
            sym.display_name@,
        ).len() as usize) as u32) <= u32::MAX,
    ensures
        r == symbol_range_of(*sym),
{
    let start = LspPosition {
        line: sym.loc.line.saturating_sub(1),
        character: sym.loc.col.saturating_sub(1),
    };
    let n = sym.display_name.as_str().len() as u32;
    let end = LspPosition { line: start.line, character: start.character + n };
    LspRange { start, end }
}

// ---------------------------------------------------------------------------
// Reference kinds
// ---------------------------------------------------------------------------

#[derive(Debug, Clone, Copy, PartialEq, Eq, Structural)]
pub enum ReferenceKind {
    /// Declaration / definition site (symbol is introduced here).
    Write,
    /// Usage site (symbol is referenced here).
    Read,
}

/// The two nodes cover the same bytes.
pub open spec fn same_span(a: SyntaxNode, b: SyntaxNode) -> bool {
    a.start_byte == b.start_byte && a.end_byte == b.end_byte
}

/// `d` lies within `a`, by bytes.
pub open spec fn is_within(a: SyntaxNode, d: SyntaxNode) -> bool {
    a.start_byte <= d.start_byte && d.end_byte <= a.end_byte
}

/// `id` is the first identifier of the name field `nf`: `nf` itself when it
/// is an identifier, else its first `identifier` child.
pub open spec fn is_first_identifier(nf: SyntaxNode, id: SyntaxNode) -> bool {
    if nf.kind@ == kind_identifier() {
        same_span(nf, id)
    } else {
        let j = first_of_kind(nf.children@, kind_identifier());
        j < nf.children@.len() && same_span(nf.children@[j], id)
    }
}

/// Whether the identifier `id`, below the ancestors `anc` (root first), is
/// where a symbol is introduced: the nearest ancestor that decides is a
/// `*_entry` (declaration: write), an `equation_definition` (write for the
/// identifier that opens its `name` field, read otherwise) or an
/// `alias_declaration` (write for the new names after the first, read for
/// the first); with none of these above it, it is a read.
pub open spec fn classify(anc: Seq<SyntaxNode>, id: SyntaxNode) -> ReferenceKind
    decreases anc.len(),
{
    if anc.len() == 0 {
        ReferenceKind::Read
    } else {
        let p = anc.last();
        if ends_with(p.kind@, "_entry"@) {
            ReferenceKind::Write
        } else if p.kind@ == "equation_definition"@ {
            let f = first_with_field(p.children@, "name"@);
            if f < p.children@.len() && is_within(p.children@[f], id) && is_first_identifier(
                p.children@[f],
                id,
            ) {
                ReferenceKind::Write
            } else {
                ReferenceKind::Read
            }
        } else if p.kind@ == "alias_declaration"@ {
            let ids = idents(p.children@);
            if ids.len() >= 2 && exists|j: int| 1 <= j < ids.len() && same_span(#[trigger] ids[j], id) {
                ReferenceKind::Write
            } else {
                ReferenceKind::Read
            }
        } else {
            classify(anc.drop_last(), id)
        }
    }
}

/// The nodes the references of `v` point to.
pub open spec fn nodes_view(v: Seq<&SyntaxNode>) -> Seq<SyntaxNode> {
    v.map_values(|n: &SyntaxNode| *n)
}

fn is_first_identifier_exec(nf: &SyntaxNode, id: &SyntaxNode) -> (r: bool)
    ensures
        r == is_first_identifier(*nf, *id),
{
    if same_chars(nf.kind.as_str(), "identifier") {
        nf.start_byte == id.start_byte && nf.end_byte == id.end_byte
    } else {
        let j = first_of_kind_exec(&nf.children, "identifier");
        j < nf.children.len() && nf.children[j].start_byte == id.start_byte
            && nf.children[j].end_byte == id.end_byte
    }
}

/// Decide whether the identifier `id`, below the ancestors `anc` (root
/// first), is a declaration (write) or a usage (read).
#[verifier::loop_isolation(false)]
pub fn classify_reference(anc: &Vec<&SyntaxNode>, id: &SyntaxNode) -> (r: ReferenceKind)
    ensures
        r == classify(nodes_view(anc@), *id),
{
    let ghost av = nodes_view(anc@);
    let mut j = anc.len();
    assert(av.take(j as int) == av);
    while j > 0
        invariant
            j <= anc@.len(),
            av == nodes_view(anc@),
            classify(av, *id) == classify(av.take(j as int), *id),
        decreases j,
    {
        let parent = anc[j - 1];
        let ghost pre = av.take(j as int);
        assert(pre.last() == *parent);
        assert(pre.drop_last() == av.take(j - 1));
        if ends_with_exec(parent.kind.as_str(), "_entry") {
            return ReferenceKind::Write;
        }
        if same_chars(parent.kind.as_str(), "equation_definition") {
            let f = first_with_field_exec(&parent.children, "name");
            if f < parent.children.len() {
                let nf = &parent.children[f];
                if nf.start_byte <= id.start_byte && id.end_byte <= nf.end_byte
                    && is_first_identifier_exec(nf, id) {
                    return ReferenceKind::Write;
                }
            }
            return ReferenceKind::Read;
        }
        if same_chars(parent.kind.as_str(), "alias_declaration") {
            let ids = idents_exec(&parent.children);
            let ghost iv = nodes_view(ids@);
            assert(iv == idents(parent.children@));
            if ids.len() >= 2 {
                let mut k: usize = 1;
                while k < ids.len()
                    invariant
                        1 <= k <= ids@.len(),
                        iv == nodes_view(ids@),
                        iv == idents(parent.children@),
                        forall|i: int| 1 <= i < k ==> !same_span(#[trigger] iv[i], *id),
                    decreases ids@.len() - k,
                {
                    let a = ids[k];
                    assert(iv[k as int] == *a);
                    if a.start_byte == id.start_byte && a.end_byte == id.end_byte {
                        assert(1 <= k < iv.len() && same_span(iv[k as int], *id));
                        return ReferenceKind::Write;
                    }
                    k += 1;
                }
            }
            assert(iv == idents(parent.children@));
            return ReferenceKind::Read;
        }
        j -= 1;
    }
    ReferenceKind::Read
}

/// A reference to a name in the tree: the path of child indices from the
/// root to the identifier, and whether it declares or uses the name.
pub struct Reference {
    pub path: Vec<usize>,
    pub kind: ReferenceKind,
}

pub open spec fn ref_view(r: Reference) -> (Seq<usize>, ReferenceKind) {
    (r.path@, r.kind)
}

pub open spec fn refs_view(v: Seq<Reference>) -> Seq<(Seq<usize>, ReferenceKind)> {
    v.map_values(|r: Reference| ref_view(r))
}

/// The references to `key` (a lowercased name) in the tree `n`, reached by
/// `path` below the ancestors `anc`, in preorder: an identifier whose
/// lowercased text is `key`, then those of its children in order.
pub open spec fn refs_in(n: SyntaxNode, path: Seq<usize>, anc: Seq<SyntaxNode>, key: Seq<char>) -> Seq<(Seq<usize>, ReferenceKind)>
    decreases n,
{
    let own = if n.kind@ == kind_identifier() && n.text is Some && lowercase(n.text.unwrap()@)
        == key {
        seq![(path, classify(anc, n))]
    } else {
        seq![]
    };
    own + refs_children(n.children@, path, anc.push(n), key)
}

/// The references in the trees `cs`, children of the node at `path`.
pub open spec fn refs_children(cs: Seq<SyntaxNode>, path: Seq<usize>, anc: Seq<SyntaxNode>, key: Seq<char>) -> Seq<(Seq<usize>, ReferenceKind)>
    decreases cs,
{
    if cs.len() == 0 {
        seq![]
    } else {
        refs_children(cs.drop_last(), path, anc, key) + refs_in(
            cs.last(),
            path.push((cs.len() - 1) as usize),
            anc,
            key,
        )
    }
}

fn copy_path(p: &Vec<usize>) -> (r: Vec<usize>)
    ensures
        r@ == p@,
{
    let mut r: Vec<usize> = Vec::new();
    let mut i: usize = 0;
    while i < p.len()
        invariant
            i <= p@.len(),
            r@ == p@.take(i as int),
        decreases p@.len() - i,
    {
        assert(p@.take(i + 1) == p@.take(i as int).push(p@[i as int]));
        r.push(p[i]);
        i += 1;
    }
    assert(p@.take(p@.len() as int) == p@);
    r
}

fn refs_rec<'a>(
    n: &'a SyntaxNode,
    path: &mut Vec<usize>,
    anc: &mut Vec<&'a SyntaxNode>,
    key: &str,
    out: &mut Vec<Reference>,
)
    ensures
        final(path)@ == old(path)@,
        final(anc)@ == old(anc)@,
        refs_view(final(out)@) == refs_view(old(out)@) + refs_in(
            *n,
            old(path)@,
            nodes_view(old(anc)@),
            key@,
        ),
    decreases n,
{
    let ghost p0 = path@;
    let ghost a0 = nodes_view(anc@);
    let ghost o0 = refs_view(out@);
    if same_chars(n.kind.as_str(), "identifier") {
        match &n.text {
            Some(t) => {
                let tl = to_lower(t.as_str());
                if same_chars(tl.as_str(), key) {
                    let kind = classify_reference(anc, n);
                    let r = Reference { path: copy_path(path), kind };
                    let ghost before = out@;
                    out.push(r);
                    assert(refs_view(out@) == refs_view(before).push(ref_view(r)));
                }
            },
            None => {},
        }
    }
    let ghost o1 = refs_view(out@);
    assert(o1 == o0 + (if n.kind@ == kind_identifier() && n.text is Some && lowercase(
        n.text.unwrap()@,
    ) == key@ {
        seq![(p0, classify(a0, *n))]
    } else {
        seq![]
    }));
    let ghost before_anc = anc@;
    anc.push(n);
    assert(nodes_view(anc@) == a0.push(*n));
    let cs = &n.children;
    let mut i: usize = 0;
    while i < cs.len()
        invariant
            i <= cs@.len(),
            *cs == n.children,
            path@ == p0,
            nodes_view(anc@) == a0.push(*n),
            anc@ == before_anc.push(n),
            refs_view(out@) == o1 + refs_children(cs@.take(i as int), p0, a0.push(*n), key@),
        decreases cs@.len() - i,
    {
        assert(cs@.take(i + 1).drop_last() == cs@.take(i as int));
        assert(cs@.take(i + 1).last() == cs@[i as int]);
        path.push(i);
        refs_rec(&cs[i], path, anc, key, out);
        let _ = path.pop();
        assert(path@ == p0);
        i += 1;
    }
    assert(cs@.take(cs@.len() as int) == cs@);
    let _ = anc.pop();
    assert(anc@ == before_anc);
}

/// Find every `identifier` node in the tree whose text matches `name`
/// (case-insensitive), with whether it declares or uses the name.
pub fn find_references_in_tree(root: &SyntaxNode, name: &str) -> (r: Vec<Reference>)
    ensures
        refs_view(r@) == refs_in(*root, seq![], seq![], lowercase(name@)),
{
    let lower = to_lower(name);
    let mut path: Vec<usize> = Vec::new();
    let mut anc: Vec<&SyntaxNode> = Vec::new();
    let mut out: Vec<Reference> = Vec::new();
    assert(refs_view(out@) == Seq::<(Seq<usize>, ReferenceKind)>::empty());
    assert(nodes_view(anc@) == Seq::<SyntaxNode>::empty());
    refs_rec(root, &mut path, &mut anc, lower.as_str(), &mut out);
    out
}

// ---------------------------------------------------------------------------
// Hover formatting
// ---------------------------------------------------------------------------

/// `**Kind** `name(domain)``, then the description on a paragraph of its own.
pub open spec fn hover_symbol_text(sym: Symbol) -> Seq<char> {
    let head = "**"@ + kind_label(sym.kind) + "** `"@ + sym.display_name@ + match sym.domain {
        Some(d) => d@,
        None => seq![],
    } + "`"@;
    match sym.description {
        Some(desc) => head + "\n\n"@ + desc@,
        None => head,
    }
}

/// Format a markdown hover string for a GAMS symbol.
pub fn format_hover_symbol(sym: &Symbol) -> (r: String)
    ensures
        r@ == hover_symbol_text(*sym),
{
    let mut sig = String::new();
    push_str(&mut sig, "**");
    let kind = sym.kind.label();
    push_str(&mut sig, kind.as_str());
    push_str(&mut sig, "** `");
    push_str(&mut sig, sym.display_name.as_str());
    match &sym.domain {
        Some(d) => push_str(&mut sig, d.as_str()),
        None => {},
    }
    push_str(&mut sig, "`");
    match &sym.description {
        Some(desc) => {
            push_str(&mut sig, "\n\n");
            push_str(&mut sig, desc.as_str());
        },
        None => {},
    }
    sig
}

/// The directive that defines a variable of scope `s`.
pub open spec fn scope_keyword(s: Scope) -> Seq<char> {
    match s {
        Scope::Local => "$set"@,
        Scope::Global => "$setglobal"@,
        Scope::Env => "$setenv"@,
    }
}

/// `**DollarVar** `%name%` *($set)*`, then the current value, if any.
pub open spec fn hover_dollar_var_text(dv: DollarVariable) -> Seq<char> {
    let head = "**DollarVar** `%"@ + dv.name@ + "%` *("@ + scope_keyword(dv.scope) + ")*"@;
    if dv.definitions@.len() > 0 {
        head + "\n\nCurrent value: `"@ + dv.definitions@.last().0@ + "`"@
    } else {
        head
    }
}

/// Format a markdown hover string for a dollar-layer variable.
pub fn format_hover_dollar_var(dv: &DollarVariable) -> (r: String)
    ensures
        r@ == hover_dollar_var_text(*dv),
{
    let scope_kw = match dv.scope {
        Scope::Local => "$set",
        Scope::Global => "$setglobal",
        Scope::Env => "$setenv",
    };
    let mut out = String::new();
    push_str(&mut out, "**DollarVar** `%");
    push_str(&mut out, dv.name.as_str());
    push_str(&mut out, "%` *(");
    push_str(&mut out, scope_kw);
    push_str(&mut out, ")*");
    match dv.current_value() {
        Some(val) => {
            push_str(&mut out, "\n\nCurrent value: `");
            push_str(&mut out, val);
            push_str(&mut out, "`");
        },
        None => {},
    }
    out
}

// ---------------------------------------------------------------------------
// `%name%` under the cursor
// ---------------------------------------------------------------------------

/// Number of bytes in the UTF-8 encoding of the first `k` characters of `s`.
pub open spec fn byte_offset(s: Seq<char>, k: int) -> int {
    encode_utf8(s.take(k)).len() as int
}

proof fn lemma_encode_concat(a: Seq<char>, b: Seq<char>)
    ensures
        encode_utf8(a + b) == encode_utf8(a) + encode_utf8(b),
    decreases a.len(),
{
    if a.len() == 0 {
        assert(a + b == b);
    } else {
        lemma_encode_concat(a.drop_first(), b);
        assert((a + b).drop_first() == a.drop_first() + b);
        assert((a + b)[0] == a[0]);
    }
}

proof fn lemma_byte_offset_step(s: Seq<char>, k: int)
    requires
        0 <= k < s.len(),
    ensures
        byte_offset(s, k + 1) == byte_offset(s, k) + encode_scalar(s[k] as u32).len(),
        byte_offset(s, k + 1) <= encode_utf8(s).len(),
{
    let c = s[k];
    lemma_encode_concat(s.take(k), seq![c]);
    assert(s.take(k + 1) == s.take(k) + seq![c]);
    assert(seq![c].drop_first() == Seq::<char>::empty());
    assert(encode_utf8(seq![c]) == encode_scalar(c as u32) + encode_utf8(Seq::<char>::empty()));
    assert(encode_utf8(Seq::<char>::empty()) == Seq::<u8>::empty());
    lemma_encode_concat(s.take(k + 1), s.skip(k + 1));
    assert(s.take(k + 1) + s.skip(k + 1) == s);
}

/// The number of bytes `char::len_utf8` gives for `c`.
fn utf8_width(c: char) -> (r: usize)
    ensures
        r == encode_scalar(c as u32).len(),
{
    let u = c as u32;
    if u <= 0x7F {
        1
    } else if u <= 0x7FF {
        2
    } else if u <= 0xFFFF {
        3
    } else {
        4
    }
}

/// `offs[k]` is the byte offset of character `k` of `s`, for `k <= s.len()`.
fn byte_offsets(s: &str, chars: &[char]) -> (offs: Vec<usize>)
    requires
        chars@ == s@,
    ensures
        offs@.len() == chars@.len() + 1,
        forall|k: int| 0 <= k <= chars@.len() ==> offs@[k] == byte_offset(chars@, k),
{
    let bytes = s.as_bytes();
    let total = bytes.len();
    let mut offs: Vec<usize> = Vec::new();
    offs.push(0);
    assert(chars@.take(0) == Seq::<char>::empty());
    let mut k: usize = 0;
    let mut off: usize = 0;
    while k < chars.len()
        invariant
            k <= chars@.len(),
            chars@ == s@,
            bytes@ == encode_utf8(s@),
            total == bytes@.len(),
            off == byte_offset(chars@, k as int),
            offs@.len() == k + 1,
            forall|j: int| 0 <= j <= k ==> offs@[j] == byte_offset(chars@, j),
        decreases chars@.len() - k,
    {
        proof {
            lemma_byte_offset_step(chars@, k as int);
        }
        off = off + utf8_width(chars[k]);
        offs.push(off);
        k += 1;
    }
    offs
}

pub proof fn lemma_next_pct_bound(t: Seq<char>, j: int)
    requires
        0 <= j <= t.len(),
    ensures
        j <= next_pct(t, j) <= t.len(),
    decreases t.len() - j,
{
    if j < t.len() && t[j] != '%' {
        lemma_next_pct_bound(t, j + 1);
    }
}

/// The name of the first `%name%` span of `s` found from index `i` on
/// whose byte range (the two `%` included) holds byte column `col`, with a
/// name that is not empty and has no space. Spans are taken left to right,
/// each `%` that closes one not opening the next.
pub open spec fn var_name_from(s: Seq<char>, i: int, col: int) -> Option<Seq<char>>
    decreases s.len() - i,
{
    if i < 0 || i > s.len() {
        None
    } else {
        let open = next_pct(s, i);
        if open >= s.len() {
            None
        } else {
            let close = next_pct(s, open + 1);
            if close >= s.len() {
                None
            } else {
                let name = s.subrange(open + 1, close);
                if byte_offset(s, open) <= col <= byte_offset(s, close) && name.len() > 0
                    && !name.contains(' ') {
                    Some(name)
                } else {
                    proof {
                        lemma_next_pct_bound(s, i);
                        lemma_next_pct_bound(s, open + 1);
                    }
                    var_name_from(s, close + 1, col)
                }
            }
        }
    }
}

/// Whether `s[a..b]` holds a space.
fn has_space(s: &[char], a: usize, b: usize) -> (r: bool)
    requires
        a <= b <= s.len(),
    ensures
        r == s@.subrange(a as int, b as int).contains(' '),
{
    let mut k = a;
    while k < b
        invariant
            a <= k <= b <= s.len(),
            forall|j: int| a <= j < k ==> s@[j] != ' ',
        decreases b - k,
    {
        if s[k] == ' ' {
            assert(s@.subrange(a as int, b as int)[k - a] == ' ');
            return true;
        }
        k += 1;
    }
    assert(forall|j: int|
        0 <= j < b - a ==> s@.subrange(a as int, b as int)[j] == s@[a + j]);
    false
}

/// If the character at byte column `col` (0-based) falls inside a `%name%`
/// span on `line`, return `name`. Handles cursor on either `%` delimiter.
pub fn dollar_var_name_at_position(line: &str, col: usize) -> (r: Option<String>)
    ensures
        match r {
            Some(name) => var_name_from(line@, 0, col as int) == Some(name@),
            None => var_name_from(line@, 0, col as int).is_none(),
        },
{
    let s = chars_of(line);
    let offs = byte_offsets(line, s.as_slice());
    let n = s.len();
    let mut i: usize = 0;
    while i < n
        invariant
            n == s@.len(),
            s@ == line@,
            i <= n,
            offs@.len() == n + 1,
            forall|k: int| 0 <= k <= n ==> offs@[k] == byte_offset(s@, k),
            var_name_from(s@, i as int, col as int) == var_name_from(s@, 0, col as int),
        decreases n - i,
    {
        let open = next_pct_exec(s.as_slice(), i);
        if open >= n {
            return None;
        }
        let close = next_pct_exec(s.as_slice(), open + 1);
        if close >= n {
            return None;
        }
        if col >= offs[open] && col <= offs[close] && close > open + 1
            && !has_space(s.as_slice(), open + 1, close) {
            return Some(string_of(s.as_slice(), open + 1, close));
        }
        i = close + 1;
    }
    assert(next_pct(s@, i as int) == s@.len());
    None
}

// ---------------------------------------------------------------------------
// Identifier under the cursor
// ---------------------------------------------------------------------------

/// The nodes from `n` down along `path` (child indices), `n` first; none
/// when an index is out of range.
pub open spec fn chain(n: SyntaxNode, path: Seq<usize>) -> Option<Seq<SyntaxNode>>
    decreases path.len(),
{
    if path.len() == 0 {
        Some(seq![n])
    } else if path[0] < n.children@.len() {
        match chain(n.children@[path[0] as int], path.drop_first()) {
            Some(c) => Some(seq![n] + c),
            None => None,
        }
    } else {
        None
    }
}

/// The text of the nearest identifier on `c` going up from its last node;
/// none when there is none or its text is unknown.
pub open spec fn ident_up(c: Seq<SyntaxNode>) -> Option<Seq<char>>
    decreases c.len(),
{
    if c.len() == 0 {
        None
    } else if c.last().kind@ == kind_identifier() {
        crate::symbols::opt_view(c.last().text)
    } else {
        ident_up(c.drop_last())
    }
}

/// The identifier at the node the path leads to, or above it.
pub open spec fn identifier_at(root: SyntaxNode, path: Seq<usize>) -> Option<Seq<char>> {
    match chain(root, path) {
        Some(c) => ident_up(c),
        None => None,
    }
}

proof fn lemma_chain_step(n: SyntaxNode, path: Seq<usize>, i: int)
    requires
        0 <= i < path.len(),
        chain(n, path.take(i)) is Some,
    ensures
        chain(n, path.take(i)).unwrap().len() == i + 1,
        chain(n, path.take(i + 1)) == (if path[i] < chain(n, path.take(i)).unwrap().last().children@.len() {
            Some(chain(n, path.take(i)).unwrap().push(
                chain(n, path.take(i)).unwrap().last().children@[path[i] as int],
            ))
        } else {
            None::<Seq<SyntaxNode>>
        }),
    decreases i,
{
    if i == 0 {
        assert(path.take(0) == Seq::<usize>::empty());
        let p1 = path.take(1);
        assert(p1.drop_first() == Seq::<usize>::empty());
        if path[0] < n.children@.len() {
            assert(seq![n] + seq![n.children@[path[0] as int]] == seq![n].push(
                n.children@[path[0] as int],
            ));
        }
    } else {
        assert(path.take(i)[0] == path[0]);
        assert(path.take(i + 1)[0] == path[0]);
        let c = n.children@[path[0] as int];
        let rest = path.drop_first();
        assert(path.take(i).drop_first() == rest.take(i - 1));
        assert(path.take(i + 1).drop_first() == rest.take(i));
        lemma_chain_step(c, rest, i - 1);
        assert(rest[i - 1] == path[i]);
        let sub = chain(c, rest.take(i - 1)).unwrap();
        assert((seq![n] + sub).last() == sub.last());
        if path[i] < sub.last().children@.len() {
            assert(seq![n] + sub.push(sub.last().children@[path[i] as int]) == (seq![n] + sub).push(
                sub.last().children@[path[i] as int],
            ));
        }
    }
}

/// The text of the identifier at the node that `path` (child indices from
/// the root) leads to, or at its nearest identifier ancestor; none when
/// the path leads nowhere or no identifier is found.
pub fn identifier_at_path(root: &SyntaxNode, path: &[usize]) -> (r: Option<String>)
    ensures
        crate::symbols::opt_view(r) == identifier_at(*root, path@),
{
    let mut nodes: Vec<&SyntaxNode> = Vec::new();
    nodes.push(root);
    let mut i: usize = 0;
    assert(path@.take(0) == Seq::<usize>::empty());
    assert(nodes_view(nodes@) == seq![*root]);
    while i < path.len()
        invariant
            i <= path@.len(),
            nodes@.len() == i + 1,
            chain(*root, path@.take(i as int)) == Some(nodes_view(nodes@)),
        decreases path@.len() - i,
    {
        proof {
            lemma_chain_step(*root, path@, i as int);
        }
        let cur = nodes[i];
        assert(nodes_view(nodes@).last() == *cur);
        let k = path[i];
        if k >= cur.children.len() {
            proof {
                lemma_chain_none(*root, path@, i as int + 1);
            }
            return None;
        }
        let ghost before = nodes@;
        nodes.push(&cur.children[k]);
        assert(nodes_view(nodes@) == nodes_view(before).push(cur.children@[k as int]));
        i += 1;
    }
    assert(path@.take(path@.len() as int) == path@);
    let ghost c = nodes_view(nodes@);
    let mut j = nodes.len();
    assert(c.take(j as int) == c);
    while j > 0
        invariant
            j <= nodes@.len(),
            c == nodes_view(nodes@),
            chain(*root, path@) == Some(c),
            ident_up(c) == ident_up(c.take(j as int)),
        decreases j,
    {
        let n = nodes[j - 1];
        assert(c.take(j as int).last() == *n);
        assert(c.take(j as int).drop_last() == c.take(j - 1));
        if same_chars(n.kind.as_str(), "identifier") {
            return match &n.text {
                Some(t) => Some(t.clone()),
                None => None,
            };
        }
        j -= 1;
    }
    None
}

proof fn lemma_chain_none(n: SyntaxNode, path: Seq<usize>, i: int)
    requires
        0 < i <= path.len(),
        chain(n, path.take(i)) is None,
    ensures
        chain(n, path) is None,
    decreases i,
{
    if path[0] < n.children@.len() {
        let rest = path.drop_first();
        assert(path.take(i).drop_first() == rest.take(i - 1));
        assert(path.take(i)[0] == path[0]);
        if i - 1 == 0 {
            assert(rest.take(0) == Seq::<usize>::empty());
        } else {
            lemma_chain_none(n.children@[path[0] as int], rest, i - 1);
        }
    } else {
        assert(path.take(i)[0] == path[0]);
    }
}

// ---------------------------------------------------------------------------
// Diagnostics
// ---------------------------------------------------------------------------

/// A diagnostic as the editor shows it.
pub struct EditorDiagnostic {
    pub range: LspRange,
    pub severity: Severity,
    pub message: String,
    /// Which layer reported it.
    pub source: String,
}

/// The model of an editor diagnostic.
pub struct DiagSpec {
    pub range: LspRange,
    pub severity: Severity,
    pub message: Seq<char>,
    pub source: Seq<char>,
}

pub open spec fn diag_view(d: EditorDiagnostic) -> DiagSpec {
    DiagSpec { range: d.range, severity: d.severity, message: d.message@, source: d.source@ }
}

pub open spec fn diags_view(v: Seq<EditorDiagnostic>) -> Seq<DiagSpec> {
    v.map_values(|d: EditorDiagnostic| diag_view(d))
}

pub open spec fn dollar_source() -> Seq<char> {
    "gams-lsp (dollar)"@
}

pub open spec fn tree_source() -> Seq<char> {
    "gams-lsp (tree-sitter)"@
}

/// The editor form of a dollar-layer diagnostic: 0-based line and column,
/// spanning its length (at least one character).
pub open spec fn dollar_diag_of(d: Diagnostic) -> DiagSpec {
    let line = if d.loc.line == 0 { 0 } else { (d.loc.line - 1) as u32 };
    let col = if d.loc.col == 0 { 0 } else { (d.loc.col - 1) as u32 };
    let len = if d.loc.length == 0 { 1 } else { d.loc.length };
    DiagSpec {
        range: LspRange {
            start: LspPosition { line, character: col },
            end: LspPosition { line, character: (col + len) as u32 },
        },
        severity: d.severity,
        message: d.message@,
        source: dollar_source(),
    }
}

/// The span of `d` fits a `u32` column.
pub open spec fn dollar_diag_fits(d: Diagnostic) -> bool {
    (if d.loc.col == 0 { 0 } else { d.loc.col - 1 }) + (if d.loc.length == 0 { 1 } else { d.loc.length }) <= u32::MAX
}

/// Whether the span of `d` fits a `u32` column, as [`collect_diagnostics`]
/// needs of each dollar-layer diagnostic.
pub fn diagnostic_span_fits(d: &Diagnostic) -> (r: bool)
    ensures
        r == dollar_diag_fits(*d),
{
    let col = d.loc.col.saturating_sub(1) as u64;
    let len = if d.loc.length == 0 { 1 } else { d.loc.length } as u64;
    col + len <= 0xFFFF_FFFFu64
}

fn dollar_diags(src: &[Diagnostic], out: &mut Vec<EditorDiagnostic>)
    requires
        forall|k: int| 0 <= k < src@.len() ==> dollar_diag_fits(#[trigger] src@[k]),
    ensures
        diags_view(final(out)@) == diags_view(old(out)@) + src@.map_values(|d: Diagnostic| dollar_diag_of(d)),
{
    let ghost start = diags_view(out@);
    let mut i: usize = 0;
    while i < src.len()
        invariant
            i <= src@.len(),
            forall|k: int| 0 <= k < src@.len() ==> dollar_diag_fits(#[trigger] src@[k]),
            diags_view(out@) == start + src@.take(i as int).map_values(|d: Diagnostic| dollar_diag_of(d)),
        decreases src@.len() - i,
    {
        let d = &src[i];
        assert(dollar_diag_fits(src@[i as int]));
        let line = d.loc.line.saturating_sub(1);
        let col = d.loc.col.saturating_sub(1);
        let len = if d.loc.length == 0 { 1 } else { d.loc.length };
        let mut source = String::new();
        push_str(&mut source, "gams-lsp (dollar)");
        let e = EditorDiagnostic {
            range: LspRange {
                start: LspPosition { line, character: col },
                end: LspPosition { line, character: col + len },
            },
            severity: d.severity,
            message: d.message.clone(),
            source,
        };
        let ghost before = out@;
        out.push(e);
        assert(diags_view(out@) == diags_view(before).push(diag_view(e)));
        assert(src@.take(i + 1).map_values(|d: Diagnostic| dollar_diag_of(d)) == src@.take(
            i as int,
        ).map_values(|d: Diagnostic| dollar_diag_of(d)).push(dollar_diag_of(*d)));
        i += 1;
    }
    assert(src@.take(src@.len() as int) == src@);
}

/// The syntax errors of the tree `n`: an error node is reported as a
/// whole (nothing below it is), a node the parser inserted is reported as
/// missing, and the children follow in order.
pub open spec fn tree_diags(n: SyntaxNode, map: Seq<u32>) -> Seq<DiagSpec>
    decreases n,
{
    if n.is_error {
        seq![DiagSpec { range: node_range_of(map, n), severity: Severity::Error, message: "syntax error"@, source: tree_source() }]
    } else {
        let own = if n.is_missing {
            seq![DiagSpec { range: node_range_of(map, n), severity: Severity::Error, message: "missing `"@ + n.kind@ + "`"@, source: tree_source() }]
        } else {
            seq![]
        };
        own + tree_diags_children(n.children@, map)
    }
}

pub open spec fn tree_diags_children(cs: Seq<SyntaxNode>, map: Seq<u32>) -> Seq<DiagSpec>
    decreases cs,
{
    if cs.len() == 0 {
        seq![]
    } else {
        tree_diags_children(cs.drop_last(), map) + tree_diags(cs.last(), map)
    }
}

fn ts_error_diags(node: &SyntaxNode, sm: &SourceMap, out: &mut Vec<EditorDiagnostic>)
    requires
        fits(*node),
    ensures
        diags_view(final(out)@) == diags_view(old(out)@) + tree_diags(*node, sm.body_line_to_orig@),
    decreases node,
{
    let ghost map = sm.body_line_to_orig@;
    let ghost start = diags_view(out@);
    if node.is_error {
        let mut source = String::new();
        push_str(&mut source, "gams-lsp (tree-sitter)");
        let mut message = String::new();
        push_str(&mut message, "syntax error");
        let e = EditorDiagnostic {
            range: node_range(sm, node),
            severity: Severity::Error,
            message,
            source,
        };
        out.push(e);
        assert(diags_view(out@) == start.push(diag_view(e)));
        return;
    }
    if node.is_missing {
        let mut source = String::new();
        push_str(&mut source, "gams-lsp (tree-sitter)");
        let mut message = String::new();
        push_str(&mut message, "missing `");
        push_str(&mut message, node.kind.as_str());
        push_str(&mut message, "`");
        let e = EditorDiagnostic {
            range: node_range(sm, node),
            severity: Severity::Error,
            message,
            source,
        };
        out.push(e);
        assert(diags_view(out@) == start.push(diag_view(e)));
    }
    let ghost mid = diags_view(out@);
    let cs = &node.children;
    let mut i: usize = 0;
    while i < cs.len()
        invariant
            i <= cs@.len(),
            *cs == node.children,
            fits(*node),
            map == sm.body_line_to_orig@,
            diags_view(out@) == mid + tree_diags_children(cs@.take(i as int), map),
        decreases cs@.len() - i,
    {
        assert(cs@.take(i + 1).drop_last() == cs@.take(i as int));
        assert(cs@.take(i + 1).last() == cs@[i as int]);
        assert(fits(cs@[i as int]));
        ts_error_diags(&cs[i], sm, out);
        i += 1;
    }
    assert(cs@.take(cs@.len() as int) == cs@);
}

/// All diagnostics of a document: those of the dollar layer, then the
/// syntax errors of its tree, if it has one.
pub fn collect_diagnostics(
    dollar_diagnostics: &[Diagnostic],
    tree: Option<&SyntaxNode>,
    source_map: &SourceMap,
) -> (r: Vec<EditorDiagnostic>)
    requires
        forall|k: int|
            0 <= k < dollar_diagnostics@.len() ==> dollar_diag_fits(#[trigger] dollar_diagnostics@[k]),
        tree is Some ==> fits(*tree.unwrap()),
    ensures
        diags_view(r@) == dollar_diagnostics@.map_values(|d: Diagnostic| dollar_diag_of(d)) + match tree {
            Some(t) => tree_diags(*t, source_map.body_line_to_orig@),
            None => Seq::<DiagSpec>::empty(),
        },
{
    let mut diags: Vec<EditorDiagnostic> = Vec::new();
    assert(diags_view(diags@) == Seq::<DiagSpec>::empty());
    dollar_diags(dollar_diagnostics, &mut diags);
    match tree {
        Some(t) => ts_error_diags(t, source_map, &mut diags),
        None => {},
    }
    diags
}

// ---------------------------------------------------------------------------
// Completion
// ---------------------------------------------------------------------------

/// A completion proposal: the text to insert, what it is, and what to show
/// beside it.
pub struct CompletionEntry {
    pub label: String,
    pub kind: SymbolKind,
    pub detail: Option<String>,
    pub documentation: Option<String>,
}

fn copy_opt(o: &Option<String>) -> (r: Option<String>)
    ensures
        crate::symbols::opt_view(r) == crate::symbols::opt_view(*o),
{
    match o {
        Some(s) => Some(s.clone()),
        None => None,
    }
}

/// The completion proposal for a symbol: its name, its kind, its name with
/// its domain (when it has one) and its description.
pub open spec fn symbol_entry_ok(e: CompletionEntry, s: Symbol) -> bool {
    &&& e.label@ == s.display_name@
    &&& e.kind == s.kind
    &&& crate::symbols::opt_view(e.detail) == match s.domain {
        Some(d) => Some(s.display_name@ + d@),
        None => None,
    }
    &&& crate::symbols::opt_view(e.documentation) == crate::symbols::opt_view(s.description)
}

/// Build completion proposals for all GAMS symbols in `table`.
pub fn symbol_completion_items(table: &SymbolTable) -> (r: Vec<CompletionEntry>)
    ensures
        r@.len() == table.symbols@.len(),
        forall|k: int| 0 <= k < r@.len() ==> symbol_entry_ok(#[trigger] r@[k], table.symbols@[k]),
{
    let mut out: Vec<CompletionEntry> = Vec::new();
    let mut i: usize = 0;
    while i < table.symbols.len()
        invariant
            i <= table.symbols@.len(),
            out@.len() == i,
            forall|k: int| 0 <= k < i ==> symbol_entry_ok(#[trigger] out@[k], table.symbols@[k]),
        decreases table.symbols@.len() - i,
    {
        let s = &table.symbols[i];
        let detail = match &s.domain {
            Some(d) => {
                let mut t = s.display_name.clone();
                push_str(&mut t, d.as_str());
                Some(t)
            },
            None => None,
        };
        out.push(
            CompletionEntry {
                label: s.display_name.clone(),
                kind: s.kind,
                detail,
                documentation: copy_opt(&s.description),
            },
        );
        i += 1;
    }
    out
}

/// The completion proposal for a dollar variable: its name, shown with
/// `= value` for its current value when it has one.
pub open spec fn var_entry_ok(e: CompletionEntry, v: DollarVariable) -> bool {
    &&& e.label@ == v.name@
    &&& e.kind == SymbolKind::DollarVar
    &&& crate::symbols::opt_view(e.detail) == if v.definitions@.len() > 0 {
        Some("= "@ + v.definitions@.last().0@)
    } else {
        None
    }
    &&& e.documentation is None
}

/// Build completion proposals for all dollar-layer variables in `table`.
pub fn dollar_var_completion_items(table: &SymbolTable) -> (r: Vec<CompletionEntry>)
    ensures
        r@.len() == table.dollar_vars@.len(),
        forall|k: int| 0 <= k < r@.len() ==> var_entry_ok(#[trigger] r@[k], table.dollar_vars@[k]),
{
    let mut out: Vec<CompletionEntry> = Vec::new();
    let mut i: usize = 0;
    while i < table.dollar_vars.len()
        invariant
            i <= table.dollar_vars@.len(),
            out@.len() == i,
            forall|k: int| 0 <= k < i ==> var_entry_ok(#[trigger] out@[k], table.dollar_vars@[k]),
        decreases table.dollar_vars@.len() - i,
    {
        let v = &table.dollar_vars[i];
        let detail = match v.current_value() {
            Some(val) => {
                let mut t = String::new();
                push_str(&mut t, "= ");
                push_str(&mut t, val);
                Some(t)
            },
            None => None,
        };
        out.push(
            CompletionEntry { label: v.name.clone(), kind: SymbolKind::DollarVar, detail, documentation: None },
        );
        i += 1;
    }
    out
}

} // verus!
