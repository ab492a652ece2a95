//! What the main operations give, stated for every input: how conditions
//! group `and`, `or` and `not`, which kind each declaration gives its
//! symbols, which identifiers of an equation definition declare a name,
//! how `not` prefixes negate their keyword, and which includes a document
//! lists.

use crate::expr::{and_tri, is_value_tok, or_tri, p_and, p_comparison, p_not, p_or, p_value, and_loop, or_loop, eval_result, expr_tokens, ETok};
use crate::document::{include_paths_of, SourceMap};
use crate::types::{Token, TokenKind};
use crate::features::{classify, is_within, same_span, ReferenceKind};
use crate::evaluator::{ascii_ci, ascii_ci_prefix, cond_eval, condition_prefix, mode_of_kw, prefix_from, prefix_rule, Mode};
use crate::laws::{lemma_trim_plain, not_tri};
use crate::text::is_ws;
use crate::symbols::{SymSpec, SymbolKind};
use crate::syntax::{idents, ends_with, first_of_kind, first_with_field, kind_identifier, alias_syms, entries_syms, eq_def_syms, single_syms, visit_syms, SyntaxNode};
use vstd::prelude::*;

verus! {

// ---------------------------------------------------------------------------
// Grouping of `and`, `or` and `not`
// ---------------------------------------------------------------------------

/// A simple condition: one value, or two values around a comparison
/// operator.
pub open spec fn is_atom(a: Seq<ETok>) -> bool {
    ||| a.len() == 1 && is_value_tok(a[0])
    ||| a.len() == 3 && is_value_tok(a[0]) && (a[1] matches ETok::Op(_)) && is_value_tok(a[2])
}

/// The value of the token list `t` evaluated on its own (unknown when it
/// does not parse).
pub open spec fn value_of(t: Seq<ETok>) -> Option<bool> {
    match p_or(t, 0) {
        Ok((v, _)) => v,
        Err(_) => None,
    }
}

/// `t` holds `a` from `pos` on, followed by the end, `and`, `or` or `)`.
pub open spec fn atom_at(t: Seq<ETok>, pos: int, a: Seq<ETok>) -> bool {
    &&& 0 <= pos
    &&& pos + a.len() <= t.len()
    &&& forall|i: int| 0 <= i < a.len() ==> t[pos + i] == #[trigger] a[i]
    &&& (pos + a.len() == t.len() || t[pos + a.len()] matches ETok::And || t[pos + a.len()] matches ETok::Or
        || t[pos + a.len()] matches ETok::RParen)
}

proof fn lemma_atom_at(t: Seq<ETok>, pos: int, a: Seq<ETok>)
    requires
        is_atom(a),
        atom_at(t, pos, a),
    ensures
        p_not(t, pos) == Ok::<(Option<bool>, int), crate::expr::EErr>((value_of(a), pos + a.len())),
{
    assert(t[pos] == a[0]);
    assert(p_not(t, pos) == p_comparison(t, pos));
    assert(p_not(a, 0) == p_comparison(a, 0));
    if a.len() == 3 {
        assert(t[pos + 1] == a[1]);
        assert(t[pos + 2] == a[2]);
    }
    let n = a.len() as int;
    let v = match p_not(a, 0) {
        Ok((v, _)) => v,
        Err(_) => None,
    };
    assert(p_not(a, 0) == Ok::<(Option<bool>, int), crate::expr::EErr>((v, n)));
    assert(p_and(a, 0) == and_loop(a, n, v));
    assert(p_or(a, 0) == or_loop(a, n, v));
}

proof fn lemma_parenthesised(a: Seq<ETok>, b: Seq<ETok>, c: Seq<ETok>)
    requires
        is_atom(a),
        is_atom(b),
        is_atom(c),
    ensures
        value_of(seq![ETok::LParen] + a + seq![ETok::Or] + b + seq![ETok::RParen] + seq![ETok::And] + c)
            == and_tri(or_tri(value_of(a), value_of(b)), value_of(c)),
{
    let (la, lb) = (a.len() as int, b.len() as int);
    let t = seq![ETok::LParen] + a + seq![ETok::Or] + b + seq![ETok::RParen] + seq![ETok::And] + c;
    assert(atom_at(t, 1, a)) by {
        assert forall|i: int| 0 <= i < a.len() implies t[1 + i] == #[trigger] a[i] by {}
        assert(t[1 + la] == ETok::Or);
    }
    assert(atom_at(t, la + 2, b)) by {
        assert forall|i: int| 0 <= i < b.len() implies t[la + 2 + i] == #[trigger] b[i] by {}
        assert(t[la + 2 + lb] == ETok::RParen);
    }
    assert(atom_at(t, la + lb + 4, c)) by {
        assert forall|i: int| 0 <= i < c.len() implies t[la + lb + 4 + i] == #[trigger] c[i] by {}
    }
    lemma_atom_at(t, 1, a);
    lemma_atom_at(t, la + 2, b);
    lemma_atom_at(t, la + lb + 4, c);
    let n = t.len() as int;
    let (va, vb, vc) = (value_of(a), value_of(b), value_of(c));
    let ab = or_tri(va, vb);
    let r = la + lb + 2;
    assert(t[0] == ETok::LParen && t[r] == ETok::RParen && t[r + 1] == ETok::And);
    assert(and_loop(t, 1 + la, va) == Ok::<(Option<bool>, int), crate::expr::EErr>((va, 1 + la)));
    assert(p_and(t, 1) == and_loop(t, 1 + la, va));
    assert(and_loop(t, r, vb) == Ok::<(Option<bool>, int), crate::expr::EErr>((vb, r)));
    assert(p_and(t, la + 2) == and_loop(t, r, vb));
    assert(or_loop(t, r, ab) == Ok::<(Option<bool>, int), crate::expr::EErr>((ab, r)));
    assert(or_loop(t, 1 + la, va) == or_loop(t, r, ab));
    assert(p_or(t, 1) == or_loop(t, 1 + la, va));
    assert(p_comparison(t, 0) == Ok::<(Option<bool>, int), crate::expr::EErr>((ab, r + 1)));
    assert(p_not(t, 0) == p_comparison(t, 0));
    assert(and_loop(t, n, and_tri(ab, vc)) == Ok::<(Option<bool>, int), crate::expr::EErr>((and_tri(ab, vc), n)));
    assert(and_loop(t, r + 1, ab) == and_loop(t, n, and_tri(ab, vc)));
    assert(p_and(t, 0) == and_loop(t, r + 1, ab));
    assert(or_loop(t, n, and_tri(ab, vc)) == Ok::<(Option<bool>, int), crate::expr::EErr>((and_tri(ab, vc), n)));
    assert(p_or(t, 0) == or_loop(t, n, and_tri(ab, vc)));
}

/// `and` binds tighter than `or`, and both combine in three-valued logic:
/// for simple conditions `a`, `b`, `c` (a value, or a comparison of two),
/// `a or b and c` is `a or (b and c)`, and `a and b or c` is
/// `(a and b) or c`; `a and b`, `a or b` and `not a` combine the values of
/// their operands as evaluated alone; parentheses group first, so
/// `(a or b) and c` is `(a or b) and c`. An expression text that reads as
/// `a or b and c` evaluates to the same.
pub proof fn law_and_binds_tighter(a: Seq<ETok>, b: Seq<ETok>, c: Seq<ETok>)
    requires
        is_atom(a),
        is_atom(b),
        is_atom(c),
    ensures
        value_of(a + seq![ETok::Or] + b + seq![ETok::And] + c) == or_tri(
            value_of(a),
            and_tri(value_of(b), value_of(c)),
        ),
        value_of(a + seq![ETok::And] + b + seq![ETok::Or] + c) == or_tri(
            and_tri(value_of(a), value_of(b)),
            value_of(c),
        ),
        value_of(a + seq![ETok::And] + b) == and_tri(value_of(a), value_of(b)),
        value_of(a + seq![ETok::Or] + b) == or_tri(value_of(a), value_of(b)),
        value_of(seq![ETok::Not] + a) == not_tri(value_of(a)),
        value_of(seq![ETok::LParen] + a + seq![ETok::Or] + b + seq![ETok::RParen] + seq![ETok::And] + c)
            == and_tri(or_tri(value_of(a), value_of(b)), value_of(c)),
        forall|e: Seq<char>|
            #![trigger expr_tokens(e)]
            expr_tokens(e) == a + seq![ETok::Or] + b + seq![ETok::And] + c ==> eval_result(e).0
                == or_tri(value_of(a), and_tri(value_of(b), value_of(c))),
{
    lemma_parenthesised(a, b, c);
    let (la, lb, lc) = (a.len() as int, b.len() as int, c.len() as int);
    // a or b and c
    let t = a + seq![ETok::Or] + b + seq![ETok::And] + c;
    assert(atom_at(t, 0, a)) by {
        assert forall|i: int| 0 <= i < a.len() implies t[0 + i] == #[trigger] a[i] by {}
        assert(t[la] == ETok::Or);
    }
    assert(atom_at(t, la + 1, b)) by {
        assert forall|i: int| 0 <= i < b.len() implies t[la + 1 + i] == #[trigger] b[i] by {}
        assert(t[la + 1 + lb] == ETok::And);
    }
    assert(atom_at(t, la + lb + 2, c)) by {
        assert forall|i: int| 0 <= i < c.len() implies t[la + lb + 2 + i] == #[trigger] c[i] by {}
    }
    lemma_atom_at(t, 0, a);
    lemma_atom_at(t, la + 1, b);
    lemma_atom_at(t, la + lb + 2, c);
    let n = t.len() as int;
    let (va, vb, vc) = (value_of(a), value_of(b), value_of(c));
    assert(and_loop(t, n, and_tri(vb, vc)) == Ok::<(Option<bool>, int), crate::expr::EErr>((and_tri(vb, vc), n)));
    assert(and_loop(t, la + 1 + lb, vb) == and_loop(t, n, and_tri(vb, vc)));
    assert(p_and(t, la + 1) == and_loop(t, la + 1 + lb, vb));
    assert(or_loop(t, n, or_tri(va, and_tri(vb, vc))) == Ok::<(Option<bool>, int), crate::expr::EErr>((or_tri(va, and_tri(vb, vc)), n)));
    assert(or_loop(t, la, va) == or_loop(t, n, or_tri(va, and_tri(vb, vc))));
    assert(and_loop(t, la, va) == Ok::<(Option<bool>, int), crate::expr::EErr>((va, la)));
    assert(p_and(t, 0) == and_loop(t, la, va));
    assert(p_or(t, 0) == or_loop(t, la, va));
    assert forall|e: Seq<char>| #![trigger expr_tokens(e)] expr_tokens(e) == t implies eval_result(e).0
        == or_tri(va, and_tri(vb, vc)) by {
        assert(t.len() > 0);
    }
    // a and b or c
    let u = a + seq![ETok::And] + b + seq![ETok::Or] + c;
    assert(atom_at(u, 0, a)) by {
        assert forall|i: int| 0 <= i < a.len() implies u[0 + i] == #[trigger] a[i] by {}
        assert(u[la] == ETok::And);
    }
    assert(atom_at(u, la + 1, b)) by {
        assert forall|i: int| 0 <= i < b.len() implies u[la + 1 + i] == #[trigger] b[i] by {}
        assert(u[la + 1 + lb] == ETok::Or);
    }
    assert(atom_at(u, la + lb + 2, c)) by {
        assert forall|i: int| 0 <= i < c.len() implies u[la + lb + 2 + i] == #[trigger] c[i] by {}
    }
    lemma_atom_at(u, 0, a);
    lemma_atom_at(u, la + 1, b);
    lemma_atom_at(u, la + lb + 2, c);
    let m = u.len() as int;
    let ab = and_tri(va, vb);
    assert(and_loop(u, la + 1 + lb, ab) == Ok::<(Option<bool>, int), crate::expr::EErr>((ab, la + 1 + lb)));
    assert(and_loop(u, la, va) == and_loop(u, la + 1 + lb, ab));
    assert(and_loop(u, m, vc) == Ok::<(Option<bool>, int), crate::expr::EErr>((vc, m)));
    assert(p_and(u, la + lb + 2) == and_loop(u, m, vc));
    assert(or_loop(u, m, or_tri(ab, vc)) == Ok::<(Option<bool>, int), crate::expr::EErr>((or_tri(ab, vc), m)));
    assert(or_loop(u, la + 1 + lb, ab) == or_loop(u, m, or_tri(ab, vc)));
    assert(p_and(u, 0) == and_loop(u, la, va));
    assert(p_or(u, 0) == or_loop(u, la + 1 + lb, ab));
    // a and b
    let w = a + seq![ETok::And] + b;
    assert(atom_at(w, 0, a)) by {
        assert forall|i: int| 0 <= i < a.len() implies w[0 + i] == #[trigger] a[i] by {}
        assert(w[la] == ETok::And);
    }
    assert(atom_at(w, la + 1, b)) by {
        assert forall|i: int| 0 <= i < b.len() implies w[la + 1 + i] == #[trigger] b[i] by {}
    }
    lemma_atom_at(w, 0, a);
    lemma_atom_at(w, la + 1, b);
    let wn = w.len() as int;
    assert(and_loop(w, wn, ab) == Ok::<(Option<bool>, int), crate::expr::EErr>((ab, wn)));
    assert(and_loop(w, la, va) == and_loop(w, wn, ab));
    assert(p_and(w, 0) == and_loop(w, la, va));
    assert(or_loop(w, wn, ab) == Ok::<(Option<bool>, int), crate::expr::EErr>((ab, wn)));
    assert(p_or(w, 0) == or_loop(w, wn, ab));
    // a or b
    let o = a + seq![ETok::Or] + b;
    assert(atom_at(o, 0, a)) by {
        assert forall|i: int| 0 <= i < a.len() implies o[0 + i] == #[trigger] a[i] by {}
        assert(o[la] == ETok::Or);
    }
    assert(atom_at(o, la + 1, b)) by {
        assert forall|i: int| 0 <= i < b.len() implies o[la + 1 + i] == #[trigger] b[i] by {}
    }
    lemma_atom_at(o, 0, a);
    lemma_atom_at(o, la + 1, b);
    let on = o.len() as int;
    assert(and_loop(o, on, vb) == Ok::<(Option<bool>, int), crate::expr::EErr>((vb, on)));
    assert(p_and(o, la + 1) == and_loop(o, on, vb));
    assert(or_loop(o, on, or_tri(va, vb)) == Ok::<(Option<bool>, int), crate::expr::EErr>((or_tri(va, vb), on)));
    assert(or_loop(o, la, va) == or_loop(o, on, or_tri(va, vb)));
    assert(and_loop(o, la, va) == Ok::<(Option<bool>, int), crate::expr::EErr>((va, la)));
    assert(p_and(o, 0) == and_loop(o, la, va));
    assert(p_or(o, 0) == or_loop(o, la, va));
    // not a
    let q = seq![ETok::Not] + a;
    assert(atom_at(q, 1, a)) by {
        assert forall|i: int| 0 <= i < a.len() implies q[1 + i] == #[trigger] a[i] by {}
    }
    lemma_atom_at(q, 1, a);
    let qn = q.len() as int;
    assert(q[0] == ETok::Not);
    assert(p_not(q, 0) == Ok::<(Option<bool>, int), crate::expr::EErr>((not_tri(va), qn)));
    assert(and_loop(q, qn, not_tri(va)) == Ok::<(Option<bool>, int), crate::expr::EErr>((not_tri(va), qn)));
    assert(p_and(q, 0) == and_loop(q, qn, not_tri(va)));
    assert(or_loop(q, qn, not_tri(va)) == Ok::<(Option<bool>, int), crate::expr::EErr>((not_tri(va), qn)));
    assert(p_or(q, 0) == or_loop(q, qn, not_tri(va)));
}

// ---------------------------------------------------------------------------
// Kinds of collected symbols
// ---------------------------------------------------------------------------

/// Every symbol of `s` has kind `k`.
pub open spec fn all_of_kind(s: Seq<SymSpec>, k: SymbolKind) -> bool {
    forall|i: int| 0 <= i < s.len() ==> (#[trigger] s[i]).kind == k
}

proof fn lemma_entries_kind(cs: Seq<SyntaxNode>, k: SymbolKind, sm: SourceMap)
    ensures
        all_of_kind(entries_syms(cs, k, sm), k),
    decreases cs.len(),
{
    if cs.len() > 0 {
        lemma_entries_kind(cs.drop_last(), k, sm);
    }
}

/// The kind of each symbol a declaration gives is fixed by the
/// declaration's keyword: sets give sets, scalars scalars, parameters and
/// tables parameters, variables and variable tables variables, equation
/// declarations and definitions equations, models models, acronyms
/// acronyms, and aliases aliases.
pub proof fn law_declaration_kinds(n: SyntaxNode, sm: SourceMap)
    ensures
        n.kind@ == "set_declaration"@ ==> all_of_kind(visit_syms(n, sm), SymbolKind::SetDecl),
        n.kind@ == "scalar_declaration"@ ==> all_of_kind(visit_syms(n, sm), SymbolKind::Scalar),
        n.kind@ == "parameter_declaration"@ ==> all_of_kind(visit_syms(n, sm), SymbolKind::Parameter),
        n.kind@ == "table_declaration"@ ==> all_of_kind(visit_syms(n, sm), SymbolKind::Parameter),
        n.kind@ == "variable_declaration"@ ==> all_of_kind(visit_syms(n, sm), SymbolKind::Variable),
        n.kind@ == "variable_table_declaration"@ ==> all_of_kind(visit_syms(n, sm), SymbolKind::Variable),
        n.kind@ == "equation_declaration"@ ==> all_of_kind(visit_syms(n, sm), SymbolKind::Equation),
        n.kind@ == "equation_definition"@ ==> all_of_kind(visit_syms(n, sm), SymbolKind::Equation),
        n.kind@ == "model_declaration"@ ==> all_of_kind(visit_syms(n, sm), SymbolKind::Model),
        n.kind@ == "acronym_declaration"@ ==> all_of_kind(visit_syms(n, sm), SymbolKind::Acronym),
        n.kind@ == "alias_declaration"@ ==> all_of_kind(visit_syms(n, sm), SymbolKind::Alias),
{
    reveal_strlit("set_declaration");
    reveal_strlit("scalar_declaration");
    reveal_strlit("parameter_declaration");
    reveal_strlit("table_declaration");
    reveal_strlit("variable_declaration");
    reveal_strlit("variable_table_declaration");
    reveal_strlit("equation_declaration");
    reveal_strlit("equation_definition");
    reveal_strlit("model_declaration");
    reveal_strlit("acronym_declaration");
    reveal_strlit("alias_declaration");
    assert("set_declaration"@.len() == 15 && "set_declaration"@[0] == 's' && "set_declaration"@[12] == 'i');
    assert("scalar_declaration"@.len() == 18 && "scalar_declaration"@[0] == 's' && "scalar_declaration"@[15] == 'i');
    assert("parameter_declaration"@.len() == 21 && "parameter_declaration"@[0] == 'p' && "parameter_declaration"@[18] == 'i');
    assert("table_declaration"@.len() == 17 && "table_declaration"@[0] == 't' && "table_declaration"@[14] == 'i');
    assert("variable_declaration"@.len() == 20 && "variable_declaration"@[0] == 'v' && "variable_declaration"@[17] == 'i');
    assert("variable_table_declaration"@.len() == 26 && "variable_table_declaration"@[0] == 'v' && "variable_table_declaration"@[23] == 'i');
    assert("equation_declaration"@.len() == 20 && "equation_declaration"@[0] == 'e' && "equation_declaration"@[17] == 'i');
    assert("equation_definition"@.len() == 19 && "equation_definition"@[0] == 'e' && "equation_definition"@[16] == 'i');
    assert("model_declaration"@.len() == 17 && "model_declaration"@[0] == 'm' && "model_declaration"@[14] == 'i');
    assert("acronym_declaration"@.len() == 19 && "acronym_declaration"@[0] == 'a' && "acronym_declaration"@[16] == 'i');
    assert("alias_declaration"@.len() == 17 && "alias_declaration"@[0] == 'a' && "alias_declaration"@[14] == 'i');
    let cs = n.children@;
    lemma_entries_kind(cs, SymbolKind::SetDecl, sm);
    lemma_entries_kind(cs, SymbolKind::Scalar, sm);
    lemma_entries_kind(cs, SymbolKind::Parameter, sm);
    lemma_entries_kind(cs, SymbolKind::Variable, sm);
    lemma_entries_kind(cs, SymbolKind::Equation, sm);
    lemma_entries_kind(cs, SymbolKind::Model, sm);
    lemma_entries_kind(cs, SymbolKind::Acronym, sm);
    assert(all_of_kind(single_syms(n, SymbolKind::Parameter, sm), SymbolKind::Parameter));
    assert(all_of_kind(single_syms(n, SymbolKind::Variable, sm), SymbolKind::Variable));
    assert(all_of_kind(eq_def_syms(n, sm), SymbolKind::Equation));
    assert(all_of_kind(alias_syms(n, sm), SymbolKind::Alias));
}

// ---------------------------------------------------------------------------
// Declarations in equation definitions
// ---------------------------------------------------------------------------

/// The node settles by itself whether an identifier below it declares a
/// name: an entry, an equation definition or an alias declaration.
pub open spec fn decides(n: SyntaxNode) -> bool {
    ||| ends_with(n.kind@, "_entry"@)
    ||| n.kind@ == "equation_definition"@
    ||| n.kind@ == "alias_declaration"@
}

proof fn lemma_classify_through(top: Seq<SyntaxNode>, mids: Seq<SyntaxNode>, id: SyntaxNode)
    requires
        forall|i: int| 0 <= i < mids.len() ==> !decides(#[trigger] mids[i]),
    ensures
        classify(top + mids, id) == classify(top, id),
    decreases mids.len(),
{
    if mids.len() > 0 {
        let m = mids.drop_last();
        assert((top + mids).drop_last() == top + m);
        assert((top + mids).last() == mids.last());
        assert(!decides(mids[mids.len() - 1]));
        lemma_classify_through(top, m, id);
    }
}

proof fn lemma_idents_concat(a: Seq<SyntaxNode>, b: Seq<SyntaxNode>)
    ensures
        idents(a + b) == idents(a) + idents(b),
    decreases b.len(),
{
    if b.len() == 0 {
        assert(a + b == a);
        assert(idents(b) == Seq::<SyntaxNode>::empty());
    } else {
        lemma_idents_concat(a, b.drop_last());
        assert((a + b).drop_last() == a + b.drop_last());
        assert((a + b).last() == b.last());
    }
}

proof fn lemma_idents_none(s: Seq<SyntaxNode>)
    ensures
        idents(s).len() == 0 <==> forall|i: int| 0 <= i < s.len() ==> (#[trigger] s[i]).kind@ != kind_identifier(),
    decreases s.len(),
{
    if s.len() > 0 {
        lemma_idents_none(s.drop_last());
        if s.last().kind@ != kind_identifier() {
            assert forall|i: int| 0 <= i < s.len() - 1 implies (#[trigger] s.drop_last()[i]).kind@ == s[i].kind@ by {}
            if !(forall|i: int| 0 <= i < s.len() ==> (#[trigger] s[i]).kind@ != kind_identifier()) {
                let i = choose|i: int| 0 <= i < s.len() && (#[trigger] s[i]).kind@ == kind_identifier();
                assert(s.drop_last()[i] == s[i]);
            }
        } else {
            assert(s[s.len() - 1].kind@ == kind_identifier());
        }
    }
}

/// Identifier child `k` of `cs` stands in `idents(cs)` after the
/// identifiers before it.
proof fn lemma_idents_at(cs: Seq<SyntaxNode>, k: int)
    requires
        0 <= k < cs.len(),
        cs[k].kind@ == kind_identifier(),
    ensures
        idents(cs.take(k)).len() < idents(cs).len(),
        idents(cs)[idents(cs.take(k)).len() as int] == cs[k],
{
    lemma_idents_concat(cs.take(k + 1), cs.skip(k + 1));
    assert(cs.take(k + 1) + cs.skip(k + 1) == cs);
    assert(cs.take(k + 1).drop_last() == cs.take(k));
    assert(cs.take(k + 1).last() == cs[k]);
}

/// Entry `j` of `idents(cs)` is an identifier child of `cs` with `j`
/// identifiers before it.
proof fn lemma_idents_from(cs: Seq<SyntaxNode>, j: int) -> (k: int)
    requires
        0 <= j < idents(cs).len(),
    ensures
        0 <= k < cs.len(),
        cs[k] == idents(cs)[j],
        cs[k].kind@ == kind_identifier(),
        idents(cs.take(k)).len() == j,
    decreases cs.len(),
{
    let d = cs.drop_last();
    if cs.last().kind@ == kind_identifier() && j == idents(d).len() {
        assert(cs.take(cs.len() - 1) == d);
        (cs.len() - 1) as int
    } else {
        let k = lemma_idents_from(d, j);
        assert(d.take(k) == cs.take(k));
        assert(d[k] == cs[k]);
        k
    }
}

/// Where a name is declared outside equation definitions: an identifier
/// whose nearest deciding ancestor (through nodes that settle nothing) is
/// an entry of a declaration is a write; below an alias declaration, an
/// identifier is a write when it is one of the identifiers after the first
/// (the new names) and a read when it is only the first (the aliased set);
/// and an identifier with no deciding ancestor at all is a read.
pub proof fn law_declaration_sites(pre: Seq<SyntaxNode>, d: SyntaxNode, mids: Seq<SyntaxNode>, id: SyntaxNode)
    requires
        forall|i: int| 0 <= i < mids.len() ==> !decides(#[trigger] mids[i]),
    ensures
        ends_with(d.kind@, "_entry"@) ==> classify(pre.push(d) + mids, id) == ReferenceKind::Write,
        d.kind@ == "alias_declaration"@ && (exists|k1: int, k2: int|
            0 <= k1 < k2 < d.children@.len() && (#[trigger] d.children@[k1]).kind@ == "identifier"@
                && (#[trigger] d.children@[k2]).kind@ == "identifier"@ && same_span(d.children@[k2], id))
            ==> classify(pre.push(d) + mids, id) == ReferenceKind::Write,
        d.kind@ == "alias_declaration"@ && (forall|k: int|
            0 <= k < d.children@.len() && (#[trigger] d.children@[k]).kind@ == "identifier"@ && same_span(
                d.children@[k],
                id,
            ) ==> forall|k1: int| 0 <= k1 < k ==> (#[trigger] d.children@[k1]).kind@ != "identifier"@)
            ==> classify(pre.push(d) + mids, id) == ReferenceKind::Read,
        classify(mids, id) == ReferenceKind::Read,
{
    reveal_strlit("identifier");
    reveal_strlit("alias_declaration");
    reveal_strlit("equation_definition");
    let top = pre.push(d);
    lemma_classify_through(top, mids, id);
    lemma_classify_through(Seq::<SyntaxNode>::empty(), mids, id);
    assert(Seq::<SyntaxNode>::empty() + mids == mids);
    assert(top.last() == d);
    let cs = d.children@;
    let ids = idents(cs);
    if d.kind@ == "alias_declaration"@ {
        assert(!ends_with(d.kind@, "_entry"@)) by {
            reveal_strlit("_entry");
            assert("_entry"@.len() == 6 && "_entry"@[0] == '_');
            assert(d.kind@.len() == 17);
            assert(d.kind@.subrange(11, 17)[0] == d.kind@[11]);
            assert(d.kind@[11] == 'r');
        }
        assert(d.kind@ != "equation_definition"@) by {
            assert(d.kind@.len() == 17);
        }
        if exists|k1: int, k2: int|
            0 <= k1 < k2 < cs.len() && (#[trigger] cs[k1]).kind@ == "identifier"@
                && (#[trigger] cs[k2]).kind@ == "identifier"@ && same_span(cs[k2], id) {
            let (k1, k2) = choose|k1: int, k2: int|
                0 <= k1 < k2 < cs.len() && (#[trigger] cs[k1]).kind@ == "identifier"@
                    && (#[trigger] cs[k2]).kind@ == "identifier"@ && same_span(cs[k2], id);
            lemma_idents_at(cs, k2);
            let p = idents(cs.take(k2)).len() as int;
            lemma_idents_none(cs.take(k2));
            assert(cs.take(k2)[k1] == cs[k1]);
            assert(p >= 1);
            assert(same_span(ids[p], id));
        }
        if forall|k: int|
            0 <= k < cs.len() && (#[trigger] cs[k]).kind@ == "identifier"@ && same_span(cs[k], id)
                ==> forall|k1: int| 0 <= k1 < k ==> (#[trigger] cs[k1]).kind@ != "identifier"@ {
            if ids.len() >= 2 && exists|j: int| 1 <= j < ids.len() && same_span(#[trigger] ids[j], id) {
                let j = choose|j: int| 1 <= j < ids.len() && same_span(#[trigger] ids[j], id);
                let k = lemma_idents_from(cs, j);
                lemma_idents_none(cs.take(k));
                let k1 = choose|i: int| 0 <= i < cs.take(k).len() && (#[trigger] cs.take(k)[i]).kind@ == kind_identifier();
                assert(cs.take(k)[k1] == cs[k1]);
                assert(false);
            }
        }
    }
}

/// In an equation definition, only the equation's own name is declared:
/// below a definition `def` whose `name` field is the child `f` (through
/// any nodes that settle nothing themselves), an identifier is a write
/// exactly when it lies within the name field and is its first identifier
/// (the field itself when it is an identifier, else the first identifier
/// among its children, as `e` in `e(i)`); every other identifier, such as
/// a domain index in the name or a name used in the equation's body, is a
/// read.
pub proof fn law_equation_definition_writes(
    pre: Seq<SyntaxNode>,
    def: SyntaxNode,
    f: int,
    mids: Seq<SyntaxNode>,
    id: SyntaxNode,
    k0: int,
)
    requires
        def.kind@ == "equation_definition"@,
        0 <= f < def.children@.len(),
        def.children@[f].field is Some && def.children@[f].field.unwrap()@ == "name"@,
        forall|j: int|
            0 <= j < f ==> !((#[trigger] def.children@[j]).field is Some && def.children@[j].field.unwrap()@
                == "name"@),
        forall|i: int| 0 <= i < mids.len() ==> !decides(#[trigger] mids[i]),
        0 <= k0 < def.children@[f].children@.len(),
        def.children@[f].children@[k0].kind@ == "identifier"@,
        forall|j: int| 0 <= j < k0 ==> (#[trigger] def.children@[f].children@[j]).kind@ != "identifier"@,
    ensures
        ({
            let nf = def.children@[f];
            let r = classify(pre.push(def) + mids, id);
            &&& nf.kind@ == "identifier"@ ==> (r == ReferenceKind::Write <==> same_span(nf, id))
            &&& nf.kind@ != "identifier"@ ==> (r == ReferenceKind::Write <==> (is_within(nf, id) && same_span(
                nf.children@[k0],
                id,
            )))
        }),
{
    let top = pre.push(def);
    lemma_classify_through(top, mids, id);
    lemma_first_with_field(def.children@, "name"@);
    let fw = first_with_field(def.children@, "name"@);
    if fw < f {
        assert(!(def.children@[fw].field is Some && def.children@[fw].field.unwrap()@ == "name"@));
    }
    if fw > f {
        assert(def.children@[f].field is Some);
    }
    assert(fw == f);
    let nf = def.children@[f];
    crate::syntax::lemma_first_of_kind(nf.children@, kind_identifier());
    let j = first_of_kind(nf.children@, kind_identifier());
    reveal_strlit("identifier");
    reveal_strlit("equation_definition");
    reveal_strlit("_entry");
    if j < k0 {
        assert(nf.children@[j].kind@ == "identifier"@);
    }
    if j > k0 {
        assert(nf.children@[k0].kind@ != kind_identifier());
    }
    assert(top.last() == def);
    assert(!ends_with(def.kind@, "_entry"@)) by {
        let d = def.kind@;
        assert(d.subrange(d.len() - 6, d.len() as int)[0] == d[13]);
        assert(d[13] == 'n');
    }
}

proof fn lemma_first_with_field(cs: Seq<SyntaxNode>, f: Seq<char>)
    ensures
        0 <= first_with_field(cs, f) <= cs.len(),
        forall|j: int| 0 <= j < first_with_field(cs, f) ==> !((#[trigger] cs[j]).field is Some && cs[j].field.unwrap()@ == f),
        first_with_field(cs, f) < cs.len() ==> cs[first_with_field(cs, f)].field is Some
            && cs[first_with_field(cs, f)].field.unwrap()@ == f,
    decreases cs.len(),
{
    if cs.len() > 0 && !(cs[0].field is Some && cs[0].field.unwrap()@ == f) {
        lemma_first_with_field(cs.drop_first(), f);
        assert forall|j: int| 1 <= j < first_with_field(cs, f) implies !((#[trigger] cs[j]).field is Some
            && cs[j].field.unwrap()@ == f) by {
            assert(cs[j] == cs.drop_first()[j - 1]);
        }
    }
}
// ---------------------------------------------------------------------------
// `not` prefixes
// ---------------------------------------------------------------------------

proof fn lemma_prefix_skip(t: Seq<char>, j: int, i: int)
    requires
        0 <= j <= i < 13,
        forall|k: int| j <= k < i ==> !ascii_ci_prefix(t, #[trigger] prefix_rule(k).0),
    ensures
        prefix_from(t, j) == prefix_from(t, i),
    decreases i - j,
{
    if j < i {
        assert(!ascii_ci_prefix(t, prefix_rule(j).0));
        lemma_prefix_skip(t, j + 1, i);
    }
}

/// `t` differs from the opening text of rule `k` at index `d`.
proof fn lemma_rule_misses(t: Seq<char>, k: int, d: int)
    requires
        0 <= d < t.len(),
        d < prefix_rule(k).0.len(),
        !ascii_ci(t[d], prefix_rule(k).0[d]),
    ensures
        !ascii_ci_prefix(t, prefix_rule(k).0),
{
}

proof fn lemma_rule_hits(t: Seq<char>, k: int)
    requires
        prefix_rule(k).0.len() <= t.len(),
        forall|d: int| 0 <= d < prefix_rule(k).0.len() ==> t[d] == prefix_rule(k).0[d],
    ensures
        ascii_ci_prefix(t, prefix_rule(k).0),
{
    assert forall|d: int| 0 <= d < prefix_rule(k).0.len() implies #[trigger] ascii_ci(t[d], prefix_rule(k).0[d]) by {
        assert(t[d] == prefix_rule(k).0[d]);
    }
}

proof fn lemma_modes()
    ensures
        mode_of_kw(seq!['n', 'o', 't', '_', 's', 'e', 't', 'l', 'o', 'c', 'a', 'l']) == Mode::NotSet,
        mode_of_kw(seq!['s', 'e', 't', 'l', 'o', 'c', 'a', 'l']) == Mode::IsSet,
        mode_of_kw(seq!['n', 'o', 't', '_', 's', 'e', 't', 'g', 'l', 'o', 'b', 'a', 'l']) == Mode::NotSet,
        mode_of_kw(seq!['s', 'e', 't', 'g', 'l', 'o', 'b', 'a', 'l']) == Mode::IsSet,
        mode_of_kw(seq!['e', 'x', 'i', 's', 't']) == Mode::Unknown,
        mode_of_kw(seq!['n', 'o', 't', '_', 'e', 'x', 'i', 's', 't']) == Mode::Unknown,
        mode_of_kw(seq!['s', 'e', 't', 'e', 'n', 'v']) == Mode::Unknown,
        mode_of_kw(seq!['n', 'o', 't', '_', 's', 'e', 't', 'e', 'n', 'v']) == Mode::Unknown,
{
    assert(seq!['e', 'x', 'i', 's', 't'].len() == 5 && seq!['e', 'x', 'i', 's', 't'][0] == 'e');
    assert(seq!['n', 'o', 't', '_', 'e', 'x', 'i', 's', 't'].len() == 9 && seq!['n', 'o', 't', '_', 'e', 'x', 'i', 's', 't'][0] == 'n');
    assert(seq!['e', 'r', 'r', 'o', 'r', 'l', 'e', 'v', 'e', 'l'].len() == 10 && seq!['e', 'r', 'r', 'o', 'r', 'l', 'e', 'v', 'e', 'l'][0] == 'e');
    assert(seq!['s', 'e', 't', 'e', 'n', 'v'].len() == 6 && seq!['s', 'e', 't', 'e', 'n', 'v'][0] == 's');
    assert(seq!['n', 'o', 't', '_', 's', 'e', 't', 'e', 'n', 'v'].len() == 10 && seq!['n', 'o', 't', '_', 's', 'e', 't', 'e', 'n', 'v'][0] == 'n');
    assert(seq!['s', 'e', 't'].len() == 3 && seq!['s', 'e', 't'][0] == 's');
    assert(seq!['s', 'e', 't', 'g', 'l', 'o', 'b', 'a', 'l'].len() == 9 && seq!['s', 'e', 't', 'g', 'l', 'o', 'b', 'a', 'l'][0] == 's');
    assert(seq!['s', 'e', 't', 'l', 'o', 'c', 'a', 'l'].len() == 8 && seq!['s', 'e', 't', 'l', 'o', 'c', 'a', 'l'][0] == 's');
    assert(seq!['n', 'o', 't'].len() == 3 && seq!['n', 'o', 't'][0] == 'n');
    assert(seq!['n', 'o', 't', '_', 's', 'e', 't', 'g', 'l', 'o', 'b', 'a', 'l'].len() == 13 && seq!['n', 'o', 't', '_', 's', 'e', 't', 'g', 'l', 'o', 'b', 'a', 'l'][0] == 'n');
    assert(seq!['n', 'o', 't', '_', 's', 'e', 't', 'l', 'o', 'c', 'a', 'l'].len() == 12 && seq!['n', 'o', 't', '_', 's', 'e', 't', 'l', 'o', 'c', 'a', 'l'][0] == 'n');
    assert(seq!['s', 'a', 'm', 'e', 'a', 's'].len() == 6 && seq!['s', 'a', 'm', 'e', 'a', 's'][0] == 's');
    assert(seq!['n', 'o', 't', '_', 's', 'a', 'm', 'e', 'a', 's'].len() == 10 && seq!['n', 'o', 't', '_', 's', 'a', 'm', 'e', 'a', 's'][0] == 'n');
}

proof fn lemma_prefix_not_setlocal(x: Seq<char>)
    requires
        x.len() > 0,
        !is_ws(x[0]),
        !is_ws(x[x.len() - 1]),
    ensures
        condition_prefix(seq!['n', 'o', 't', ' ', 's', 'e', 't', 'l', 'o', 'c', 'a', 'l', ' '] + x) == (seq!['n', 'o', 't', '_', 's', 'e', 't', 'l', 'o', 'c', 'a', 'l'], x),
{
    lemma_trim_plain(x);
    let t = seq!['n', 'o', 't', ' ', 's', 'e', 't', 'l', 'o', 'c', 'a', 'l', ' '] + x;
    assert(t[0] == 'n' && t[t.len() - 1] == x[x.len() - 1]);
    lemma_trim_plain(t);
    assert(t[4] == 's' && t[7] == 'l');
    lemma_rule_misses(t, 0, 7);
    lemma_rule_misses(t, 1, 4);
    lemma_rule_misses(t, 2, 7);
    lemma_rule_misses(t, 3, 7);
    lemma_rule_hits(t, 4);
    lemma_prefix_skip(t, 0, 4);
    assert(t.subrange(13, t.len() as int) == x);
}

proof fn lemma_prefix_setlocal(x: Seq<char>)
    requires
        x.len() > 0,
        !is_ws(x[0]),
        !is_ws(x[x.len() - 1]),
    ensures
        condition_prefix(seq!['s', 'e', 't', 'l', 'o', 'c', 'a', 'l', ' '] + x) == (seq!['s', 'e', 't', 'l', 'o', 'c', 'a', 'l'], x),
{
    lemma_trim_plain(x);
    let u = seq!['s', 'e', 't', 'l', 'o', 'c', 'a', 'l', ' '] + x;
    assert(u[0] == 's' && u[u.len() - 1] == x[x.len() - 1]);
    lemma_trim_plain(u);
    assert(u[3] == 'l');
    assert forall|k: int| 0 <= k < 6 implies !ascii_ci_prefix(u, #[trigger] prefix_rule(k).0) by {
        lemma_rule_misses(u, k, 0);
    }
    lemma_rule_misses(u, 6, 3);
    lemma_rule_misses(u, 7, 0);
    lemma_rule_misses(u, 8, 3);
    lemma_rule_misses(u, 9, 3);
    lemma_rule_hits(u, 10);
    lemma_prefix_skip(u, 0, 10);
    assert(u.subrange(9, u.len() as int) == x);
}

proof fn lemma_prefix_not_setglobal(x: Seq<char>)
    requires
        x.len() > 0,
        !is_ws(x[0]),
        !is_ws(x[x.len() - 1]),
    ensures
        condition_prefix(seq!['n', 'o', 't', ' ', 's', 'e', 't', 'g', 'l', 'o', 'b', 'a', 'l', ' '] + x) == (seq!['n', 'o', 't', '_', 's', 'e', 't', 'g', 'l', 'o', 'b', 'a', 'l'], x),
{
    lemma_trim_plain(x);
    let v = seq!['n', 'o', 't', ' ', 's', 'e', 't', 'g', 'l', 'o', 'b', 'a', 'l', ' '] + x;
    assert(v[0] == 'n' && v[v.len() - 1] == x[x.len() - 1]);
    lemma_trim_plain(v);
    assert(v[4] == 's' && v[7] == 'g');
    lemma_rule_misses(v, 0, 7);
    lemma_rule_misses(v, 1, 4);
    lemma_rule_misses(v, 2, 7);
    lemma_rule_hits(v, 3);
    lemma_prefix_skip(v, 0, 3);
    assert(v.subrange(14, v.len() as int) == x);
}

proof fn lemma_prefix_setglobal(x: Seq<char>)
    requires
        x.len() > 0,
        !is_ws(x[0]),
        !is_ws(x[x.len() - 1]),
    ensures
        condition_prefix(seq!['s', 'e', 't', 'g', 'l', 'o', 'b', 'a', 'l', ' '] + x) == (seq!['s', 'e', 't', 'g', 'l', 'o', 'b', 'a', 'l'], x),
{
    lemma_trim_plain(x);
    let w = seq!['s', 'e', 't', 'g', 'l', 'o', 'b', 'a', 'l', ' '] + x;
    assert(w[0] == 's' && w[w.len() - 1] == x[x.len() - 1]);
    lemma_trim_plain(w);
    assert(w[3] == 'g');
    assert forall|k: int| 0 <= k < 6 implies !ascii_ci_prefix(w, #[trigger] prefix_rule(k).0) by {
        lemma_rule_misses(w, k, 0);
    }
    lemma_rule_misses(w, 6, 3);
    lemma_rule_misses(w, 7, 0);
    lemma_rule_misses(w, 8, 3);
    lemma_rule_hits(w, 9);
    lemma_prefix_skip(w, 0, 9);
    assert(w.subrange(10, w.len() as int) == x);
}

proof fn lemma_prefix_not_exist(x: Seq<char>)
    requires
        x.len() > 0,
        !is_ws(x[0]),
        !is_ws(x[x.len() - 1]),
    ensures
        condition_prefix(seq!['n', 'o', 't', ' ', 'e', 'x', 'i', 's', 't', ' '] + x) == (seq!['n', 'o', 't', '_', 'e', 'x', 'i', 's', 't'], x),
{
    lemma_trim_plain(x);
    let t = seq!['n', 'o', 't', ' ', 'e', 'x', 'i', 's', 't', ' '] + x;
    assert(t[0] == 'n' && t[t.len() - 1] == x[x.len() - 1]);
    lemma_trim_plain(t);
    assert(t[4] == 'e');
    lemma_rule_misses(t, 0, 4);
    lemma_rule_hits(t, 1);
    lemma_prefix_skip(t, 0, 1);
    assert(t.subrange(10, t.len() as int) == x);
}

proof fn lemma_prefix_not_setenv(x: Seq<char>)
    requires
        x.len() > 0,
        !is_ws(x[0]),
        !is_ws(x[x.len() - 1]),
    ensures
        condition_prefix(seq!['n', 'o', 't', ' ', 's', 'e', 't', 'e', 'n', 'v', ' '] + x) == (seq!['n', 'o', 't', '_', 's', 'e', 't', 'e', 'n', 'v'], x),
{
    lemma_trim_plain(x);
    let t = seq!['n', 'o', 't', ' ', 's', 'e', 't', 'e', 'n', 'v', ' '] + x;
    assert(t[0] == 'n' && t[t.len() - 1] == x[x.len() - 1]);
    lemma_trim_plain(t);
    assert(t[4] == 's' && t[7] == 'e');
    lemma_rule_misses(t, 0, 7);
    lemma_rule_misses(t, 1, 4);
    lemma_rule_hits(t, 2);
    lemma_prefix_skip(t, 0, 2);
    assert(t.subrange(11, t.len() as int) == x);
}

proof fn lemma_prefix_exist(x: Seq<char>)
    requires
        x.len() > 0,
        !is_ws(x[0]),
        !is_ws(x[x.len() - 1]),
    ensures
        condition_prefix(seq!['e', 'x', 'i', 's', 't', ' '] + x) == (seq!['e', 'x', 'i', 's', 't'], x),
{
    lemma_trim_plain(x);
    let t = seq!['e', 'x', 'i', 's', 't', ' '] + x;
    assert(t[0] == 'e' && t[t.len() - 1] == x[x.len() - 1]);
    lemma_trim_plain(t);
    assert(t[0] == 'e');
    lemma_rule_misses(t, 0, 0);
    lemma_rule_misses(t, 1, 0);
    lemma_rule_misses(t, 2, 0);
    lemma_rule_misses(t, 3, 0);
    lemma_rule_misses(t, 4, 0);
    lemma_rule_misses(t, 5, 0);
    lemma_rule_misses(t, 6, 0);
    lemma_rule_hits(t, 7);
    lemma_prefix_skip(t, 0, 7);
    assert(t.subrange(6, t.len() as int) == x);
}

proof fn lemma_prefix_setenv(x: Seq<char>)
    requires
        x.len() > 0,
        !is_ws(x[0]),
        !is_ws(x[x.len() - 1]),
    ensures
        condition_prefix(seq!['s', 'e', 't', 'e', 'n', 'v', ' '] + x) == (seq!['s', 'e', 't', 'e', 'n', 'v'], x),
{
    lemma_trim_plain(x);
    let t = seq!['s', 'e', 't', 'e', 'n', 'v', ' '] + x;
    assert(t[0] == 's' && t[t.len() - 1] == x[x.len() - 1]);
    lemma_trim_plain(t);
    assert(t[0] == 's' && t[3] == 'e');
    lemma_rule_misses(t, 0, 0);
    lemma_rule_misses(t, 1, 0);
    lemma_rule_misses(t, 2, 0);
    lemma_rule_misses(t, 3, 0);
    lemma_rule_misses(t, 4, 0);
    lemma_rule_misses(t, 5, 0);
    lemma_rule_misses(t, 6, 3);
    lemma_rule_misses(t, 7, 0);
    lemma_rule_hits(t, 8);
    lemma_prefix_skip(t, 0, 8);
    assert(t.subrange(7, t.len() as int) == x);
}

/// A `not` prefix names the negated keyword: `not setlocal X`,
/// `not setglobal X`, `not exist X` and `not setenv X` (for a name `X` with
/// no whitespace at either end) have the keywords `not_setlocal`,
/// `not_setglobal`, `not_exist` and `not_setenv`, where the same text
/// without `not` has `setlocal`, `setglobal`, `exist` and `setenv`, with
/// `X` as the operand either way; and under every environment a condition
/// with a `not` prefix evaluates to the opposite of the one without it
/// (both unknown for `exist` and `setenv`, which are not decided here).
pub proof fn law_not_prefixes_negate(x: Seq<char>, m: Map<Seq<char>, Seq<char>>)
    requires
        x.len() > 0,
        !is_ws(x[0]),
        !is_ws(x[x.len() - 1]),
    ensures
        condition_prefix(seq!['n', 'o', 't', ' ', 's', 'e', 't', 'l', 'o', 'c', 'a', 'l', ' '] + x) == (seq!['n', 'o', 't', '_', 's', 'e', 't', 'l', 'o', 'c', 'a', 'l'], x),
        condition_prefix(seq!['s', 'e', 't', 'l', 'o', 'c', 'a', 'l', ' '] + x) == (seq!['s', 'e', 't', 'l', 'o', 'c', 'a', 'l'], x),
        condition_prefix(seq!['n', 'o', 't', ' ', 's', 'e', 't', 'g', 'l', 'o', 'b', 'a', 'l', ' '] + x) == (seq!['n', 'o', 't', '_', 's', 'e', 't', 'g', 'l', 'o', 'b', 'a', 'l'], x),
        condition_prefix(seq!['s', 'e', 't', 'g', 'l', 'o', 'b', 'a', 'l', ' '] + x) == (seq!['s', 'e', 't', 'g', 'l', 'o', 'b', 'a', 'l'], x),
        cond_eval(seq!['n', 'o', 't', ' ', 's', 'e', 't', 'l', 'o', 'c', 'a', 'l', ' '] + x, seq![], m).0 == not_tri(cond_eval(seq!['s', 'e', 't', 'l', 'o', 'c', 'a', 'l', ' '] + x, seq![], m).0),
        cond_eval(seq!['n', 'o', 't', ' ', 's', 'e', 't', 'g', 'l', 'o', 'b', 'a', 'l', ' '] + x, seq![], m).0 == not_tri(cond_eval(seq!['s', 'e', 't', 'g', 'l', 'o', 'b', 'a', 'l', ' '] + x, seq![], m).0),
        condition_prefix(seq!['n', 'o', 't', ' ', 'e', 'x', 'i', 's', 't', ' '] + x) == (seq!['n', 'o', 't', '_', 'e', 'x', 'i', 's', 't'], x),
        condition_prefix(seq!['e', 'x', 'i', 's', 't', ' '] + x) == (seq!['e', 'x', 'i', 's', 't'], x),
        condition_prefix(seq!['n', 'o', 't', ' ', 's', 'e', 't', 'e', 'n', 'v', ' '] + x) == (seq!['n', 'o', 't', '_', 's', 'e', 't', 'e', 'n', 'v'], x),
        condition_prefix(seq!['s', 'e', 't', 'e', 'n', 'v', ' '] + x) == (seq!['s', 'e', 't', 'e', 'n', 'v'], x),
        cond_eval(seq!['n', 'o', 't', ' ', 'e', 'x', 'i', 's', 't', ' '] + x, seq![], m).0 == not_tri(cond_eval(seq!['e', 'x', 'i', 's', 't', ' '] + x, seq![], m).0),
        cond_eval(seq!['n', 'o', 't', ' ', 's', 'e', 't', 'e', 'n', 'v', ' '] + x, seq![], m).0 == not_tri(cond_eval(seq!['s', 'e', 't', 'e', 'n', 'v', ' '] + x, seq![], m).0),
        cond_eval(seq!['e', 'x', 'i', 's', 't', ' '] + x, seq![], m).0 is None,
{
    lemma_modes();
    lemma_prefix_not_setlocal(x);
    lemma_prefix_setlocal(x);
    lemma_prefix_not_setglobal(x);
    lemma_prefix_setglobal(x);
    lemma_prefix_not_exist(x);
    lemma_prefix_exist(x);
    lemma_prefix_not_setenv(x);
    lemma_prefix_setenv(x);
}

// ---------------------------------------------------------------------------
// Include paths
// ---------------------------------------------------------------------------

/// The token is `$include` with a first argument free of `%`.
pub open spec fn literal_include(t: Token) -> bool {
    t.kind == TokenKind::Include && t.args@.len() > 0 && !t.args@[0]@.contains('%')
}

/// The include paths of a document are taken token by token, in order:
/// those of two token lists one after the other are the paths of the
/// first list followed by those of the second; one token gives its first
/// argument when it is a literal `$include`, and nothing otherwise. So
/// every literal `$include` contributes its path once, in the order the
/// includes are written.
pub proof fn law_include_paths_in_order(a: Seq<Token>, b: Seq<Token>, t: Token)
    ensures
        include_paths_of(a + b) == include_paths_of(a) + include_paths_of(b),
        include_paths_of(seq![t]) == (if literal_include(t) {
            seq![t.args@[0]@]
        } else {
            Seq::<Seq<char>>::empty()
        }),
        include_paths_of(a.push(t)).len() == include_paths_of(a).len() + (if literal_include(t) {
            1int
        } else {
            0int
        }),
    decreases b.len(),
{
    let e = Seq::<Token>::empty();
    assert(seq![t].drop_last() == e);
    assert(include_paths_of(e) == Seq::<Seq<char>>::empty());
    if b.len() == 0 {
        assert(a + b == a);
        assert(include_paths_of(a) + include_paths_of(b) == include_paths_of(a));
    } else {
        law_include_paths_in_order(a, b.drop_last(), t);
        assert((a + b).drop_last() == a + b.drop_last());
        assert((a + b).last() == b.last());
    }
    assert(a.push(t).drop_last() == a);
}

} // verus!
