//! Properties that hold of the library as a whole: of the three-valued
//! logic and the comparisons of conditions, of interpolation, of the body
//! text the lexer leaves for the parser, and of symbol and variable lookup.

use crate::evaluator::{
    ascii_ci, ascii_ci_equal, ascii_ci_prefix, cond_eval, cond_mode, condition_prefix, interp, interp_from, next_pct,
    mode_of_kw, prefix_from, prefix_rule, var_ref_at, Mode,
};
use crate::expr::{
    and_tri, compare, op_eq, op_ge, op_gt, op_le, op_lt, op_ne, op_ne2, or_tri, seq_lt, Val,
};
use crate::directive::{directive, first_match, n_patterns, pattern, strings_view};
use crate::document::{body_lines_of, body_raws_of, body_text_of};
use crate::lexer::{
    dollar_kw, effective, is_comment_line, lemma_lines_from, lemma_nl_end, lines_from, nl_end,
    no_inner_newline, is_directive_line, is_offtext_line, kw_macro,
    kw_ontext, lemma_macro_token_next, lex_from, lex_spec, loc_in, lines_of, macro_token, tok, toks_view,
    tok_view, TokSpec,
};
use crate::includes::{next_key, push_kids};
use crate::features::{
    body_point_of, byte_offset, first_row, lsp_of, refs_children, refs_in, var_name_from,
    LspPosition, ReferenceKind,
};
use crate::syntax::{kind_identifier, SyntaxNode};
use crate::number::{lemma_pow10_add, lemma_pow10_pos, mag, min_int, num_order, pow10, scaled, sign_of, NumVal};
use crate::symbols::{assignment, first_key, has_name, named, vars_from, Symbol, VarSpec};
use crate::lexer::{lead_stripped, macro_stop};
use crate::text::{
    ascii_lower, is_ws, lemma_trim_end_char, lemma_ws_end, lowercase, strip_newline, strip_newline_len,
    trim_end_char, ws_end,
};
use crate::types::{Token, TokenKind};
use std::path::PathBuf;
use vstd::prelude::*;

verus! {

// ---------------------------------------------------------------------------
// Three-valued logic
// ---------------------------------------------------------------------------

/// Negation in three-valued logic: unknown stays unknown.
pub open spec fn not_tri(a: Option<bool>) -> Option<bool> {
    match a {
        Some(b) => Some(!b),
        None => None,
    }
}

/// `OR` and `AND` of conditions do not depend on the order of their operands.
pub proof fn law_tri_commutative(a: Option<bool>, b: Option<bool>)
    ensures
        or_tri(a, b) == or_tri(b, a),
        and_tri(a, b) == and_tri(b, a),
{
}

/// A true operand makes an `OR` true and a false operand makes an `AND`
/// false, whatever the other operand is, unknown included.
pub proof fn law_tri_absorbing(a: Option<bool>)
    ensures
        or_tri(Some(true), a) == Some(true),
        and_tri(Some(false), a) == Some(false),
{
}

/// False is neutral for `OR` and true is neutral for `AND`: an unknown
/// operand then leaves the result unknown.
pub proof fn law_tri_neutral(a: Option<bool>)
    ensures
        or_tri(Some(false), a) == a,
        and_tri(Some(true), a) == a,
{
    match a {
        Some(b) => assert(b || !b),
        None => {},
    }
}

/// `OR` and `AND` are associative.
pub proof fn law_tri_associative(a: Option<bool>, b: Option<bool>, c: Option<bool>)
    ensures
        or_tri(or_tri(a, b), c) == or_tri(a, or_tri(b, c)),
        and_tri(and_tri(a, b), c) == and_tri(a, and_tri(b, c)),
{
}

/// Negating twice gives back the value, unknown included.
pub proof fn law_tri_double_negation(a: Option<bool>)
    ensures
        not_tri(not_tri(a)) == a,
{
    match a {
        Some(b) => assert(!!b == b),
        None => {},
    }
}

/// `not sameas(a, b)` is the negation of `sameas(a, b)`: both are unknown
/// together, and otherwise opposite.
pub proof fn law_not_sameas_negates(ops: Seq<char>, m: Map<Seq<char>, Seq<char>>)
    ensures
        crate::evaluator::sameas(ops, true, m) == not_tri(crate::evaluator::sameas(ops, false, m)),
{
}

/// De Morgan: `a AND b` is `NOT (NOT a OR NOT b)`, unknowns included.
pub proof fn law_tri_de_morgan(a: Option<bool>, b: Option<bool>)
    ensures
        and_tri(a, b) == not_tri(or_tri(not_tri(a), not_tri(b))),
        or_tri(a, b) == not_tri(and_tri(not_tri(a), not_tri(b))),
{
}

// ---------------------------------------------------------------------------
// Comparisons
// ---------------------------------------------------------------------------

proof fn lemma_ops_distinct()
    ensures
        op_eq() != op_ne(),
        op_eq() != op_ne2(),
        op_eq() != op_lt(),
        op_eq() != op_le(),
        op_eq() != op_gt(),
        op_eq() != op_ge(),
        op_ne() != op_ne2(),
        op_ne() != op_lt(),
        op_ne() != op_le(),
        op_ne() != op_gt(),
        op_ne() != op_ge(),
        op_ne2() != op_lt(),
        op_ne2() != op_le(),
        op_ne2() != op_gt(),
        op_ne2() != op_ge(),
        op_lt() != op_le(),
        op_lt() != op_gt(),
        op_lt() != op_ge(),
        op_le() != op_gt(),
        op_le() != op_ge(),
        op_gt() != op_ge(),
{
    assert(op_eq()[0] != op_ne()[0]);
    assert(op_eq()[0] != op_ne2()[0]);
    assert(op_eq().len() != op_lt().len());
    assert(op_eq()[0] != op_le()[0]);
    assert(op_eq().len() != op_gt().len());
    assert(op_eq()[0] != op_ge()[0]);
    assert(op_ne()[0] != op_ne2()[0]);
    assert(op_ne().len() != op_lt().len());
    assert(op_ne()[0] != op_le()[0]);
    assert(op_ne().len() != op_gt().len());
    assert(op_ne()[0] != op_ge()[0]);
    assert(op_ne2().len() != op_lt().len());
    assert(op_ne2()[1] != op_le()[1]);
    assert(op_ne2().len() != op_gt().len());
    assert(op_ne2()[0] != op_ge()[0]);
    assert(op_lt().len() != op_le().len());
    assert(op_lt()[0] != op_gt()[0]);
    assert(op_lt().len() != op_ge().len());
    assert(op_le().len() != op_gt().len());
    assert(op_le()[0] != op_ge()[0]);
    assert(op_gt().len() != op_ge().len());
}

proof fn lemma_num_order_flip(a: NumVal, b: NumVal)
    ensures
        num_order(a, b) == match num_order(b, a) {
            Some(x) => Some(-x),
            None => None::<int>,
        },
{
    match (a, b) {
        (NumVal::Fin { neg: na, digits: da, exp: ea }, NumVal::Fin { neg: nb, digits: db, exp: eb }) => {
            assert(min_int(ea, eb) == min_int(eb, ea));
            let m = min_int(ea, eb);
            let x = scaled(na, da, ea, m) - scaled(nb, db, eb, m);
            assert(sign_of(x) == -sign_of(-x));
        },
        _ => {},
    }
}

/// Swapping the two sides of a comparison and mirroring the operator gives
/// the same answer: `a < b` is `b > a`, `a <= b` is `b >= a`, and `==`,
/// `!=` and `<>` are symmetric. This holds for numbers (NaN included) and
/// for texts.
pub proof fn law_compare_mirror(l: Val, r: Val)
    ensures
        compare(l, op_lt(), r) == compare(r, op_gt(), l),
        compare(l, op_le(), r) == compare(r, op_ge(), l),
        compare(l, op_eq(), r) == compare(r, op_eq(), l),
        compare(l, op_ne(), r) == compare(r, op_ne(), l),
        compare(l, op_ne2(), r) == compare(r, op_ne2(), l),
{
    lemma_ops_distinct();
    match (l, r) {
        (Val::Num(a), Val::Num(b)) => {
            lemma_num_order_flip(a, b);
        },
        _ => {},
    }
}

proof fn lemma_rescale(neg: bool, d: Seq<u8>, e: int, m: int, m2: int)
    requires
        m2 <= m <= e,
    ensures
        scaled(neg, d, e, m2) == scaled(neg, d, e, m) * pow10((m - m2) as nat),
{
    lemma_pow10_add((e - m) as nat, (m - m2) as nat);
    assert(((e - m) as nat + (m - m2) as nat) as nat == (e - m2) as nat);
    let v = crate::number::dval(d) as int;
    let p1 = pow10((e - m) as nat) as int;
    let p2 = pow10((m - m2) as nat) as int;
    assert(v * (p1 * p2) == (v * p1) * p2) by (nonlinear_arith);
    assert(mag(d, e, m2) == mag(d, e, m) * p2);
    if neg {
        assert(-(mag(d, e, m) * p2) == (-mag(d, e, m)) * p2) by (nonlinear_arith);
    }
}

proof fn lemma_sign_scale(x: int, y: int, p: int)
    requires
        p >= 1,
    ensures
        sign_of(x * p - y * p) == sign_of(x - y),
{
    assert(x * p - y * p == (x - y) * p) by (nonlinear_arith);
    if x - y > 0 {
        assert((x - y) * p > 0) by (nonlinear_arith)
            requires
                x - y > 0,
                p >= 1,
        ;
    } else if x - y < 0 {
        assert((x - y) * p < 0) by (nonlinear_arith)
            requires
                x - y < 0,
                p >= 1,
        ;
    } else {
        assert((x - y) * p == 0) by (nonlinear_arith)
            requires
                x - y == 0,
        ;
    }
}

/// The order of two finite numbers, compared at a scale `m` at or below
/// both exponents.
proof fn lemma_order_at(a: NumVal, b: NumVal, m: int)
    requires
        a is Fin,
        b is Fin,
        m <= a->Fin_exp,
        m <= b->Fin_exp,
    ensures
        num_order(a, b) == Some(
            sign_of(scaled(a->Fin_neg, a->Fin_digits, a->Fin_exp, m) - scaled(b->Fin_neg, b->Fin_digits, b->Fin_exp, m)),
        ),
{
    let mab = min_int(a->Fin_exp, b->Fin_exp);
    lemma_rescale(a->Fin_neg, a->Fin_digits, a->Fin_exp, mab, m);
    lemma_rescale(b->Fin_neg, b->Fin_digits, b->Fin_exp, mab, m);
    lemma_pow10_pos((mab - m) as nat);
    lemma_sign_scale(
        scaled(a->Fin_neg, a->Fin_digits, a->Fin_exp, mab),
        scaled(b->Fin_neg, b->Fin_digits, b->Fin_exp, mab),
        pow10((mab - m) as nat) as int,
    );
}

/// Numbers are ordered consistently: `<` is transitive, and so is `==`.
/// (NaN is ordered with nothing, so it never takes part.)
pub proof fn law_number_order_transitive(a: NumVal, b: NumVal, c: NumVal)
    ensures
        num_order(a, b) == Some(-1int) && num_order(b, c) == Some(-1int) ==> num_order(a, c) == Some(-1int),
        num_order(a, b) == Some(0int) && num_order(b, c) == Some(0int) ==> num_order(a, c) == Some(0int),
{
    match (a, b, c) {
        (NumVal::Fin { .. }, NumVal::Fin { .. }, NumVal::Fin { .. }) => {
            let m = min_int(min_int(a->Fin_exp, b->Fin_exp), c->Fin_exp);
            lemma_order_at(a, b, m);
            lemma_order_at(b, c, m);
            lemma_order_at(a, c, m);
        },
        _ => {},
    }
}

/// `!=` and `<>` are the negation of `==`.
pub proof fn law_compare_not_equal(l: Val, r: Val)
    ensures
        compare(l, op_ne(), r) == not_tri(compare(l, op_eq(), r)),
        compare(l, op_ne2(), r) == compare(l, op_ne(), r),
{
    lemma_ops_distinct();
}

/// `<=` is `<` or `==`, and `>=` is `>` or `==`.
pub proof fn law_compare_or_equal(l: Val, r: Val)
    ensures
        compare(l, op_le(), r) == or_tri(compare(l, op_lt(), r), compare(l, op_eq(), r)),
        compare(l, op_ge(), r) == or_tri(compare(l, op_gt(), r), compare(l, op_eq(), r)),
{
    lemma_ops_distinct();
    match (l, r) {
        (Val::Num(a), Val::Num(b)) => {},
        _ => {
            lemma_seq_lt_total(crate::expr::val_text(l), crate::expr::val_text(r));
        },
    }
}

proof fn lemma_seq_lt_total(a: Seq<char>, b: Seq<char>)
    ensures
        !seq_lt(b, a) <==> (seq_lt(a, b) || a == b),
    decreases a.len(),
{
    if a.len() > 0 && b.len() > 0 && a[0] == b[0] {
        lemma_seq_lt_total(a.drop_first(), b.drop_first());
        if a.drop_first() == b.drop_first() {
            assert(a == seq![a[0]] + a.drop_first());
            assert(b == seq![b[0]] + b.drop_first());
        }
        if a == b {
            assert(a.drop_first() == b.drop_first());
        }
    } else if a.len() > 0 && b.len() > 0 {
        assert(a[0] != b[0]);
        assert(a != b);
        vstd::utf8::char_u32_cast(a[0], a[0] as u32);
        vstd::utf8::char_u32_cast(b[0], b[0] as u32);
    } else if a.len() == 0 && b.len() == 0 {
        assert(a == b);
    } else {
        assert(a != b);
    }
}

// ---------------------------------------------------------------------------
// Interpolation
// ---------------------------------------------------------------------------

proof fn lemma_interp_plain(t: Seq<char>, p: int, m: Map<Seq<char>, Seq<char>>)
    requires
        0 <= p <= t.len(),
        forall|k: int| p <= k < t.len() ==> t[k] != '%',
    ensures
        interp_from(t, p, m) == (t.subrange(p, t.len() as int), true),
    decreases t.len() - p,
{
    if p < t.len() {
        lemma_interp_plain(t, p + 1, m);
        assert(seq![t[p]] + t.subrange(p + 1, t.len() as int) == t.subrange(p, t.len() as int));
    }
}

/// A text without `%` comes out of interpolation unchanged, and counts as
/// fully resolved.
pub proof fn law_interpolate_without_references(t: Seq<char>, m: Map<Seq<char>, Seq<char>>)
    requires
        !t.contains('%'),
    ensures
        interp(t, m) == (t, true),
{
    assert forall|k: int| 0 <= k < t.len() implies t[k] != '%' by {
        if t[k] == '%' {
            assert(t.contains('%'));
        }
    }
    lemma_interp_plain(t, 0, m);
    assert(t.subrange(0, t.len() as int) == t);
}

proof fn lemma_interp_unknown(t: Seq<char>, p: int)
    requires
        0 <= p <= t.len(),
    ensures
        interp_from(t, p, Map::empty()).0 == t.subrange(p, t.len() as int),
    decreases t.len() - p,
{
    if p < t.len() {
        if var_ref_at(t, p) {
            let c = next_pct(t, p + 1);
            lemma_interp_unknown(t, c + 1);
            assert(t.subrange(p, c + 1) + t.subrange(c + 1, t.len() as int) == t.subrange(
                p,
                t.len() as int,
            ));
        } else {
            lemma_interp_unknown(t, p + 1);
            assert(seq![t[p]] + t.subrange(p + 1, t.len() as int) == t.subrange(
                p,
                t.len() as int,
            ));
        }
    }
}

/// A reference to a variable that has no value stays as written: with no
/// variables defined, interpolation gives back the text unchanged.
pub proof fn law_interpolate_unknown_kept(t: Seq<char>)
    ensures
        interp(t, Map::empty()).0 == t,
{
    lemma_interp_unknown(t, 0);
    assert(t.subrange(0, t.len() as int) == t);
}

// ---------------------------------------------------------------------------
// Conditions
// ---------------------------------------------------------------------------

/// The optimistic policy: a condition that cannot be decided statically
/// (file existence, error level, the process environment) or whose
/// expression refers to a variable without a value evaluates to unknown,
/// and no diagnostic is reported for it, so every branch stays live.
pub proof fn law_undecided_condition_is_unknown(
    raw: Seq<char>,
    tag: Seq<char>,
    m: Map<Seq<char>, Seq<char>>,
)
    requires
        cond_mode(raw, tag).0 == Mode::Unknown || (cond_mode(raw, tag).0 == Mode::Plain && !interp(
            cond_mode(raw, tag).1,
            m,
        ).1),
    ensures
        cond_eval(raw, tag, m) == (None::<bool>, None::<(Seq<char>, crate::expr::EErr)>),
{
}

// ---------------------------------------------------------------------------
// The body text left for the parser
// ---------------------------------------------------------------------------

/// A body-line token of `ls`: its text is the whole line its number names,
/// and that line is neither a `*` comment nor a `$` directive.
pub open spec fn body_line_ok(raw: Seq<char>, line: int, ls: Seq<Seq<char>>) -> bool {
    &&& 1 <= line <= ls.len()
    &&& raw == ls[line - 1]
    &&& !is_comment_line(raw)
    &&& !is_directive_line(raw)
}

/// The tokens `r` lie on lines `lo..=ls.len()`, in strictly increasing
/// line order, and each body-line token among them is a line of `ls`.
pub open spec fn toks_ok(r: Seq<TokSpec>, lo: int, ls: Seq<Seq<char>>) -> bool {
    &&& forall|k: int| 0 <= k < r.len() ==> lo <= #[trigger] r[k].line <= ls.len()
    &&& forall|a: int, b: int| 0 <= a < b < r.len() ==> #[trigger] r[a].line < #[trigger] r[b].line
    &&& forall|k: int|
        0 <= k < r.len() && #[trigger] r[k].kind == TokenKind::BodyText ==> body_line_ok(
            r[k].raw,
            r[k].line as int,
            ls,
        )
}

proof fn lemma_first_match_kind(s: Seq<char>, i: int)
    ensures
        first_match(s, i).0 != TokenKind::BodyText,
    decreases n_patterns() - i,
{
    if 0 <= i < n_patterns() {
        assert(pattern(i).kind != TokenKind::BodyText);
        lemma_first_match_kind(s, i + 1);
    }
}

proof fn lemma_prepend_ok(t: TokSpec, rest: Seq<TokSpec>, i: int, ls: Seq<Seq<char>>)
    requires
        0 <= i < ls.len(),
        t.line == i + 1,
        toks_ok(rest, i + 2, ls),
        t.kind == TokenKind::BodyText ==> body_line_ok(t.raw, i + 1, ls),
    ensures
        toks_ok(seq![t] + rest, i + 1, ls),
{
    let r = seq![t] + rest;
    assert forall|k: int| 0 < k < r.len() implies r[k] == rest[k - 1] by {}
    assert forall|a: int, b: int| 0 <= a < b < r.len() implies #[trigger] r[a].line
        < #[trigger] r[b].line by {
        if a > 0 {
            assert(rest[a - 1].line < rest[b - 1].line);
        } else {
            assert(i + 2 <= rest[b - 1].line);
        }
    }
    assert forall|k: int| 0 <= k < r.len() implies i + 1 <= #[trigger] r[k].line <= ls.len() by {
        if k > 0 {
            assert(i + 2 <= rest[k - 1].line);
        }
    }
}

proof fn lemma_ok_weaken(r: Seq<TokSpec>, lo: int, lo2: int, ls: Seq<Seq<char>>)
    requires
        toks_ok(r, lo, ls),
        lo2 <= lo,
    ensures
        toks_ok(r, lo2, ls),
{
}

proof fn lemma_lex_from_ok(ls: Seq<Seq<char>>, i: int, blk: bool)
    requires
        0 <= i <= ls.len(),
        ls.len() <= u32::MAX,
    ensures
        toks_ok(lex_from(ls, i, blk).0, i + 1, ls),
    decreases ls.len() - i,
{
    if i < ls.len() {
        let line = ls[i];
        if blk {
            if is_offtext_line(line) {
                lemma_lex_from_ok(ls, i + 1, false);
                lemma_prepend_ok(
                    tok(TokenKind::OffText, crate::text::strip_newline(line), i + 1, seq![]),
                    lex_from(ls, i + 1, false).0,
                    i,
                    ls,
                );
            } else {
                lemma_lex_from_ok(ls, i + 1, true);
                lemma_ok_weaken(lex_from(ls, i + 1, true).0, i + 2, i + 1, ls);
            }
        } else if is_comment_line(line) {
            lemma_lex_from_ok(ls, i + 1, false);
            lemma_prepend_ok(
                tok(TokenKind::CommentLine, crate::text::strip_newline(line), i + 1, seq![]),
                lex_from(ls, i + 1, false).0,
                i,
                ls,
            );
        } else if is_directive_line(line) {
            let eff = effective(line);
            if dollar_kw(eff, kw_macro()) {
                let (t, next) = macro_token(eff, ls, i);
                lemma_macro_token_next(eff, ls, i);
                reveal(macro_token);
                lemma_lex_from_ok(ls, next, false);
                lemma_ok_weaken(lex_from(ls, next, false).0, next + 1, i + 2, ls);
                lemma_prepend_ok(t, lex_from(ls, next, false).0, i, ls);
            } else if dollar_kw(eff, kw_ontext()) {
                lemma_lex_from_ok(ls, i + 1, true);
                lemma_prepend_ok(
                    tok(TokenKind::OnText, eff, i + 1, seq![]),
                    lex_from(ls, i + 1, true).0,
                    i,
                    ls,
                );
            } else {
                let d = directive(eff);
                reveal(directive);
                lemma_first_match_kind(eff, 0);
                lemma_lex_from_ok(ls, i + 1, false);
                lemma_prepend_ok(tok(d.0, eff, i + 1, d.1), lex_from(ls, i + 1, false).0, i, ls);
            }
        } else {
            lemma_lex_from_ok(ls, i + 1, false);
            lemma_prepend_ok(
                tok(TokenKind::BodyText, line, i + 1, seq![]),
                lex_from(ls, i + 1, false).0,
                i,
                ls,
            );
        }
    }
}

/// The lexer passes on each body line whole: a `BodyText` token's text is
/// the line of the source text its line number names, and that line is
/// neither a `*` comment nor a `$` directive. Tokens come in strictly
/// increasing line order. (Line numbers are `u32`: the text has at most
/// `u32::MAX` lines.)
pub proof fn law_lexer_body_lines(text: Seq<char>)
    requires
        lines_of(text).len() <= u32::MAX,
    ensures
        toks_ok(lex_spec(text).0, 1, lines_of(text)),
{
    lemma_lex_from_ok(lines_of(text), 0, false);
}

/// The lines of `v` written one after the other.
pub open spec fn concat_lines(v: Seq<Seq<char>>) -> Seq<char>
    decreases v.len(),
{
    if v.len() == 0 {
        seq![]
    } else {
        concat_lines(v.drop_last()) + v.last()
    }
}

proof fn lemma_concat_prepend(a: Seq<char>, rest: Seq<Seq<char>>)
    ensures
        concat_lines(seq![a] + rest) == a + concat_lines(rest),
    decreases rest.len(),
{
    if rest.len() > 0 {
        lemma_concat_prepend(a, rest.drop_last());
        assert((seq![a] + rest).drop_last() == seq![a] + rest.drop_last());
        assert((seq![a] + rest).last() == rest.last());
        let c = concat_lines(rest.drop_last());
        assert(concat_lines(seq![a] + rest) == concat_lines(seq![a] + rest.drop_last()) + rest.last());
        assert(concat_lines(rest) == c + rest.last());
        assert((a + c) + rest.last() == a + (c + rest.last()));
    } else {
        assert(seq![a] + rest == seq![a]);
        assert(seq![a].drop_last() == Seq::<Seq<char>>::empty());
        assert(concat_lines(Seq::<Seq<char>>::empty()) == Seq::<char>::empty());
        assert(Seq::<char>::empty() + a == a);
        assert(concat_lines(seq![a]) == a);
        assert(a + Seq::<char>::empty() == a);
    }
}

proof fn lemma_lines_concat(t: Seq<char>, p: int)
    requires
        0 <= p <= t.len(),
    ensures
        concat_lines(lines_from(t, p)) == t.subrange(p, t.len() as int),
    decreases t.len() - p,
{
    if p < t.len() {
        lemma_nl_end(t, p);
        let e = nl_end(t, p);
        lemma_lines_concat(t, e);
        lemma_concat_prepend(t.subrange(p, e), lines_from(t, e));
        assert(t.subrange(p, e) + t.subrange(e, t.len() as int) == t.subrange(p, t.len() as int));
    } else {
        assert(lines_from(t, p) == Seq::<Seq<char>>::empty());
    }
}

/// The lines the lexer works on are the text cut after each line feed:
/// written one after the other they give back the text, and a line feed
/// can only end a line.
pub proof fn law_lines_cover_text(text: Seq<char>)
    ensures
        concat_lines(lines_of(text)) == text,
        forall|k: int| 0 <= k < lines_of(text).len() ==> no_inner_newline(#[trigger] lines_of(text)[k]),
{
    lemma_lines_concat(text, 0);
    lemma_lines_from(text, 0);
    assert(text.subrange(0, text.len() as int) == text);
}

proof fn lemma_body_of_tokens(toks: Seq<Token>, ls: Seq<Seq<char>>)
    requires
        forall|a: int, b: int|
            0 <= a < b < toks.len() ==> #[trigger] toks[a].loc.line < #[trigger] toks[b].loc.line,
        forall|k: int|
            0 <= k < toks.len() && #[trigger] toks[k].kind == TokenKind::BodyText ==> body_line_ok(
                toks[k].raw@,
                toks[k].loc.line as int,
                ls,
            ),
    ensures
        body_text_of(toks) == concat_lines(body_raws_of(toks)),
        body_raws_of(toks).len() == body_lines_of(toks).len(),
        forall|k: int|
            0 <= k < body_lines_of(toks).len() ==> body_line_ok(
                #[trigger] body_raws_of(toks)[k],
                body_lines_of(toks)[k] as int,
                ls,
            ),
        forall|a: int, b: int|
            0 <= a < b < body_lines_of(toks).len() ==> #[trigger] body_lines_of(toks)[a]
                < #[trigger] body_lines_of(toks)[b],
        toks.len() > 0 ==> forall|j: int|
            0 <= j < body_lines_of(toks).len() ==> #[trigger] body_lines_of(toks)[j]
                <= toks.last().loc.line,
    decreases toks.len(),
{
    if toks.len() > 0 {
        let init = toks.drop_last();
        lemma_body_of_tokens(init, ls);
        let t = toks.last();
        assert(t == toks[toks.len() - 1]);
        if init.len() > 0 {
            assert(init.last() == toks[toks.len() - 2]);
            assert(init.last().loc.line < t.loc.line);
        }
        if t.kind == TokenKind::BodyText {
            let v = body_raws_of(init);
            assert(v.push(t.raw@).drop_last() == v);
        }
    }
}

/// The body text handed to the parser is made of whole lines of the
/// source text, in order, and the source map names the source line of
/// each: for a text that lexes, body line `k` is the source line
/// `body_line_to_orig[k]`, which is neither a `*` comment nor a `$`
/// directive, and the mapped line numbers increase strictly. (Line
/// numbers are `u32`: the text has fewer than `u32::MAX` lines.)
pub proof fn law_body_and_source_map(text: Seq<char>, toks: Seq<Token>)
    requires
        lines_of(text).len() < u32::MAX,
        toks_view(toks) == lex_spec(text).0.push(
            tok(TokenKind::Eof, seq![], lines_of(text).len() as int + 1, seq![]),
        ),
    ensures
        body_text_of(toks) == concat_lines(body_raws_of(toks)),
        body_raws_of(toks).len() == body_lines_of(toks).len(),
        forall|k: int|
            0 <= k < body_lines_of(toks).len() ==> body_line_ok(
                #[trigger] body_raws_of(toks)[k],
                body_lines_of(toks)[k] as int,
                lines_of(text),
            ),
        forall|a: int, b: int|
            0 <= a < b < body_lines_of(toks).len() ==> #[trigger] body_lines_of(toks)[a]
                < #[trigger] body_lines_of(toks)[b],
{
    let ls = lines_of(text);
    let lexed = lex_spec(text).0;
    law_lexer_body_lines(text);
    let eof = tok(TokenKind::Eof, seq![], ls.len() as int + 1, seq![]);
    let ts = lexed.push(eof);
    assert(toks.len() == ts.len());
    assert forall|k: int| 0 <= k < toks.len() implies #[trigger] tok_view(toks[k]) == ts[k] by {
        assert(toks_view(toks)[k] == tok_view(toks[k]));
    }
    assert forall|a: int, b: int| 0 <= a < b < toks.len() implies #[trigger] toks[a].loc.line
        < #[trigger] toks[b].loc.line by {
        assert(tok_view(toks[a]) == ts[a]);
        assert(tok_view(toks[b]) == ts[b]);
        if b < lexed.len() {
            assert(lexed[a].line < lexed[b].line);
        } else {
            assert(lexed[a].line <= ls.len());
        }
    }
    assert forall|k: int|
        0 <= k < toks.len() && #[trigger] toks[k].kind == TokenKind::BodyText implies body_line_ok(
        toks[k].raw@,
        toks[k].loc.line as int,
        ls,
    ) by {
        assert(tok_view(toks[k]) == ts[k]);
        if k < lexed.len() {
            assert(lexed[k].kind == TokenKind::BodyText);
        }
    }
    lemma_body_of_tokens(toks, ls);
}

// ---------------------------------------------------------------------------
// Symbol tables
// ---------------------------------------------------------------------------

/// Looking a name up in a merged table lists the matches of the first
/// table before those of the second, so the first table's declaration is
/// the one `get` returns when it has one.
pub proof fn law_merge_lookup(a: Seq<Symbol>, b: Seq<Symbol>, key: Seq<char>)
    ensures
        named(a + b, key) == named(a, key) + named(b, key),
        named(a, key).len() > 0 ==> named(a + b, key)[0] == named(a, key)[0],
{
    Seq::filter_distributes_over_add(a, b, has_name(key));
}

proof fn lemma_first_key(st: Seq<VarSpec>, key: Seq<char>, i: int)
    requires
        0 <= i <= st.len(),
    ensures
        i <= first_key(st, key, i) <= st.len(),
        forall|j: int| i <= j < first_key(st, key, i) ==> lowercase(#[trigger] st[j].name) != key,
        first_key(st, key, i) < st.len() ==> lowercase(st[first_key(st, key, i)].name) == key,
    decreases st.len() - i,
{
    if i < st.len() {
        lemma_first_key(st, key, i + 1);
    }
}

/// Two ways of locating a name agree: the first index from 0 whose
/// lowercased name is `key` is `k` when earlier names differ and `k` matches.
proof fn lemma_first_key_at(st: Seq<VarSpec>, key: Seq<char>, k: int)
    requires
        0 <= k <= st.len(),
        forall|j: int| 0 <= j < k ==> lowercase(#[trigger] st[j].name) != key,
        k < st.len() ==> lowercase(st[k].name) == key,
    ensures
        first_key(st, key, 0) == k,
{
    lemma_first_key(st, key, 0);
}

/// Each name occurs once among the collected dollar variables (names
/// compared lowercased).
pub proof fn law_dollar_vars_distinct(toks: Seq<Token>)
    ensures
        forall|i: int, j: int|
            0 <= i < j < vars_from(toks).len() ==> lowercase(#[trigger] vars_from(toks)[i].name)
                != lowercase(#[trigger] vars_from(toks)[j].name),
    decreases toks.len(),
{
    if toks.len() > 0 {
        let init = toks.drop_last();
        law_dollar_vars_distinct(init);
        let st = vars_from(init);
        match assignment(toks.last()) {
            None => {},
            Some((name, value, scope)) => {
                let key = lowercase(name);
                lemma_first_key(st, key, 0);
                let k = first_key(st, key, 0);
                let st2 = vars_from(toks);
                if k < st.len() {
                    assert forall|i: int| 0 <= i < st2.len() implies #[trigger] st2[i].name
                        == st[i].name by {}
                } else {
                    assert forall|i: int| 0 <= i < st.len() implies #[trigger] st2[i] == st[i] by {}
                    assert(lowercase(st2[st.len() as int].name) == key);
                }
            },
        }
    }
}

/// The latest assignment wins: after a token that assigns `value` to
/// `name`, the variable of that name (lowercased) has that value, set at
/// that token's location, as its last definition, so it is the variable's
/// current value.
pub proof fn law_dollar_var_latest(toks: Seq<Token>, t: Token)
    requires
        assignment(t) is Some,
    ensures
        ({
            let (name, value, scope) = assignment(t).unwrap();
            let st = vars_from(toks.push(t));
            let k = first_key(st, lowercase(name), 0);
            &&& k < st.len()
            &&& st[k].defs.len() > 0
            &&& st[k].defs.last() == (value, t.loc)
        }),
{
    let (name, value, scope) = assignment(t).unwrap();
    let key = lowercase(name);
    assert(toks.push(t).drop_last() == toks);
    assert(toks.push(t).last() == t);
    let st0 = vars_from(toks);
    let st = vars_from(toks.push(t));
    lemma_first_key(st0, key, 0);
    let k0 = first_key(st0, key, 0);
    if k0 < st0.len() {
        assert forall|j: int| 0 <= j < k0 implies lowercase(#[trigger] st[j].name) != key by {
            assert(st[j] == st0[j]);
        }
        lemma_first_key_at(st, key, k0);
    } else {
        assert forall|j: int| 0 <= j < st0.len() implies lowercase(#[trigger] st[j].name) != key by {
            assert(st[j] == st0[j]);
        }
        lemma_first_key_at(st, key, st0.len() as int);
    }
}

// ---------------------------------------------------------------------------
// `%name%` under the cursor
// ---------------------------------------------------------------------------

proof fn lemma_next_pct(t: Seq<char>, j: int)
    requires
        0 <= j <= t.len(),
    ensures
        j <= next_pct(t, j) <= t.len(),
        forall|k: int| j <= k < next_pct(t, j) ==> t[k] != '%',
        next_pct(t, j) < t.len() ==> t[next_pct(t, j)] == '%',
    decreases t.len() - j,
{
    if j < t.len() && t[j] != '%' {
        lemma_next_pct(t, j + 1);
    }
}

proof fn lemma_var_name_from(s: Seq<char>, i: int, col: int, name: Seq<char>)
    requires
        0 <= i <= s.len(),
        var_name_from(s, i, col) == Some(name),
    ensures
        name.len() > 0,
        !name.contains(' '),
        !name.contains('%'),
        exists|open: int|
            #![trigger s[open]]
            i <= open && open + name.len() + 1 < s.len() && s[open] == '%' && s[open + name.len()
                + 1] == '%' && s.subrange(open + 1, open + 1 + name.len()) == name && byte_offset(
                s,
                open,
            ) <= col <= byte_offset(s, open + name.len() + 1),
    decreases s.len() - i,
{
    lemma_next_pct(s, i);
    let open = next_pct(s, i);
    lemma_next_pct(s, open + 1);
    let close = next_pct(s, open + 1);
    let nm = s.subrange(open + 1, close);
    if byte_offset(s, open) <= col <= byte_offset(s, close) && nm.len() > 0 && !nm.contains(' ') {
        assert(nm == name);
        if name.contains('%') {
            let k = choose|k: int| 0 <= k < name.len() && name[k] == '%';
            assert(s[open + 1 + k] == '%');
        }
        assert(close == open + name.len() + 1);
        assert(s[open] == '%');
    } else {
        lemma_var_name_from(s, close + 1, col, name);
    }
}

/// A name found under the cursor is not empty, holds no space and no `%`,
/// and is written `%name%` in the line, on a span whose byte range (both
/// `%` included) holds the cursor's byte column.
pub proof fn law_var_name_found(s: Seq<char>, col: int, name: Seq<char>)
    requires
        var_name_from(s, 0, col) == Some(name),
    ensures
        name.len() > 0,
        !name.contains(' '),
        !name.contains('%'),
        exists|open: int|
            #![trigger s[open]]
            0 <= open && open + name.len() + 1 < s.len() && s[open] == '%' && s[open + name.len()
                + 1] == '%' && s.subrange(open + 1, open + 1 + name.len()) == name && byte_offset(
                s,
                open,
            ) <= col <= byte_offset(s, open + name.len() + 1),
{
    lemma_var_name_from(s, 0, col, name);
}

/// Lookup by name finds exactly the symbols whose normalised name is the
/// lowercased query: each symbol found has that name, and every symbol of
/// the table with that name is found.
pub proof fn law_lookup_exact(syms: Seq<Symbol>, key: Seq<char>)
    ensures
        forall|i: int| 0 <= i < named(syms, key).len() ==> (#[trigger] named(syms, key)[i]).name@ == key,
        forall|j: int| 0 <= j < syms.len() && (#[trigger] syms[j]).name@ == key ==> named(syms, key).contains(syms[j]),
{
    assert forall|i: int| 0 <= i < named(syms, key).len() implies (#[trigger] named(
        syms,
        key,
    )[i]).name@ == key by {
        syms.lemma_filter_pred(has_name(key), i);
    }
    assert forall|j: int| 0 <= j < syms.len() && (#[trigger] syms[j]).name@ == key implies named(
        syms,
        key,
    ).contains(syms[j]) by {
        syms.lemma_filter_contains(has_name(key), j);
    }
}

// ---------------------------------------------------------------------------
// Editor positions and body points
// ---------------------------------------------------------------------------

proof fn lemma_first_row(m: Seq<u32>, l: u32, i: int)
    requires
        0 <= i <= m.len(),
    ensures
        i <= first_row(m, l, i) <= m.len(),
        first_row(m, l, i) < m.len() ==> m[first_row(m, l, i)] == l,
    decreases m.len() - i,
{
    if i < m.len() {
        lemma_first_row(m, l, i + 1);
    }
}

/// Translating an editor position into the body and back gives the same
/// position: whenever `lsp_to_body_point` finds the position's line in the
/// body, `body_point_to_lsp` on the point it returns gives the position
/// back. Nothing is asked of the map (not even that it is increasing, as
/// the body builder makes it) beyond fitting in memory.
pub proof fn law_position_round_trip(map: Seq<u32>, pos: LspPosition)
    requires
        pos.line < u32::MAX,
        map.len() <= usize::MAX,
        body_point_of(map, pos) is Some,
    ensures
        lsp_of(map, body_point_of(map, pos).unwrap()) == pos,
{
    lemma_first_row(map, (pos.line + 1) as u32, 0);
    let row = first_row(map, (pos.line + 1) as u32, 0);
    assert(map[row] == pos.line + 1);
    assert(((pos.character as usize) as u32) == pos.character);
}

// ---------------------------------------------------------------------------
// References
// ---------------------------------------------------------------------------

/// The node that the child indices `q` lead to from `n`.
pub open spec fn node_at(n: SyntaxNode, q: Seq<usize>) -> Option<SyntaxNode>
    decreases q.len(),
{
    if q.len() == 0 {
        Some(n)
    } else if q[0] < n.children@.len() {
        node_at(n.children@[q[0] as int], q.drop_first())
    } else {
        None
    }
}

/// `m` is an identifier whose lowercased text is `key`.
pub open spec fn names(m: Option<SyntaxNode>, key: Seq<char>) -> bool {
    &&& m is Some
    &&& m.unwrap().kind@ == kind_identifier()
    &&& m.unwrap().text is Some
    &&& lowercase(m.unwrap().text.unwrap()@) == key
}

proof fn lemma_refs_in(n: SyntaxNode, path: Seq<usize>, anc: Seq<SyntaxNode>, key: Seq<char>)
    ensures
        forall|i: int|
            0 <= i < refs_in(n, path, anc, key).len() ==> {
                let p = (#[trigger] refs_in(n, path, anc, key)[i]).0;
                &&& p.len() >= path.len()
                &&& p.take(path.len() as int) == path
                &&& names(node_at(n, p.skip(path.len() as int)), key)
            },
    decreases n, 1nat,
{
    let own = if n.kind@ == kind_identifier() && n.text is Some && lowercase(n.text.unwrap()@)
        == key {
        seq![(path, classify_of(anc, n))]
    } else {
        seq![]
    };
    let ch = refs_children(n.children@, path, anc.push(n), key);
    assert(n.children.len() == n.children@.len());
    lemma_refs_children(n.children@, path, anc.push(n), key);
    let r = refs_in(n, path, anc, key);
    assert(r == own + ch);
    assert forall|i: int| 0 <= i < r.len() implies {
        let p = (#[trigger] r[i]).0;
        &&& p.len() >= path.len()
        &&& p.take(path.len() as int) == path
        &&& names(node_at(n, p.skip(path.len() as int)), key)
    } by {
        if i < own.len() {
            assert(r[i] == own[i]);
            assert(path.take(path.len() as int) == path);
            assert(path.skip(path.len() as int) == Seq::<usize>::empty());
        } else {
            let e = ch[i - own.len()];
            assert(r[i] == e);
            let p = e.0;
            let j = p[path.len() as int];
            let q = p.skip(path.len() as int);
            assert(q[0] == j);
            assert(q.drop_first() == p.skip(path.len() as int + 1));
        }
    }
}

proof fn lemma_refs_children(cs: Seq<SyntaxNode>, path: Seq<usize>, anc: Seq<SyntaxNode>, key: Seq<char>)
    requires
        cs.len() <= usize::MAX,
    ensures
        forall|i: int|
            0 <= i < refs_children(cs, path, anc, key).len() ==> {
                let p = (#[trigger] refs_children(cs, path, anc, key)[i]).0;
                &&& p.len() > path.len()
                &&& p.take(path.len() as int) == path
                &&& p[path.len() as int] < cs.len()
                &&& names(node_at(cs[p[path.len() as int] as int], p.skip(path.len() as int + 1)), key)
            },
    decreases cs, 0nat,
{
    if cs.len() > 0 {
        let init = cs.drop_last();
        let last = cs.last();
        let lp = path.push((cs.len() - 1) as usize);
        lemma_refs_children(init, path, anc, key);
        lemma_refs_in(last, lp, anc, key);
        let a = refs_children(init, path, anc, key);
        let b = refs_in(last, lp, anc, key);
        let r = refs_children(cs, path, anc, key);
        assert(r == a + b);
        assert forall|i: int| 0 <= i < r.len() implies {
            let p = (#[trigger] r[i]).0;
            &&& p.len() > path.len()
            &&& p.take(path.len() as int) == path
            &&& p[path.len() as int] < cs.len()
            &&& names(node_at(cs[p[path.len() as int] as int], p.skip(path.len() as int + 1)), key)
        } by {
            if i < a.len() {
                assert(r[i] == a[i]);
                let p = a[i].0;
                assert(cs[p[path.len() as int] as int] == init[p[path.len() as int] as int]);
            } else {
                assert(r[i] == b[i - a.len()]);
                let p = b[i - a.len()].0;
                assert(p.take(lp.len() as int) == lp);
                assert(p.take(path.len() as int) == lp.take(path.len() as int));
                assert(lp.take(path.len() as int) == path);
                assert(p[path.len() as int] == lp[path.len() as int]);
                assert(p.skip(lp.len() as int) == p.skip(path.len() as int + 1));
            }
        }
    }
}

/// Which kind of reference the identifier `id` under `anc` is.
pub open spec fn classify_of(anc: Seq<SyntaxNode>, id: SyntaxNode) -> ReferenceKind {
    crate::features::classify(anc, id)
}

/// Every reference found to a name leads, by its path from the root, to an
/// identifier whose lowercased text is the lowercased name.
pub proof fn law_references_are_matching_identifiers(root: SyntaxNode, key: Seq<char>)
    ensures
        forall|i: int|
            0 <= i < refs_in(root, seq![], seq![], key).len() ==> names(
                node_at(root, (#[trigger] refs_in(root, seq![], seq![], key)[i]).0),
                key,
            ),
{
    lemma_refs_in(root, seq![], seq![], key);
    assert forall|i: int| 0 <= i < refs_in(root, seq![], seq![], key).len() implies names(
        node_at(root, (#[trigger] refs_in(root, seq![], seq![], key)[i]).0),
        key,
    ) by {
        let p = refs_in(root, seq![], seq![], key)[i].0;
        assert(p.skip(0) == p);
    }
}

// ---------------------------------------------------------------------------
// The include walk
// ---------------------------------------------------------------------------

/// The keys of `s` are all different.
pub open spec fn distinct(s: Seq<Seq<u8>>) -> bool {
    forall|i: int, j: int| 0 <= i < j < s.len() ==> #[trigger] s[i] != #[trigger] s[j]
}

proof fn lemma_next_key(pending: Seq<Seq<u8>>, entered: Seq<Seq<u8>>)
    ensures
        next_key(pending, entered).0 is Some ==> !entered.contains(next_key(pending, entered).0.unwrap()),
        next_key(pending, entered).1.len() <= pending.len(),
        next_key(pending, entered).0 is Some ==> next_key(pending, entered).1.len() < pending.len(),
    decreases pending.len(),
{
    if pending.len() > 0 && entered.contains(pending.last()) {
        lemma_next_key(pending.drop_last(), entered);
    }
}

/// The walk enters each document at most once: the key it enters next was
/// not entered before, so the keys entered stay all different, and every
/// step that enters a key takes it off the stack. An include cycle cannot
/// make the walk loop.
pub proof fn law_walk_enters_once(pending: Seq<Seq<u8>>, entered: Seq<Seq<u8>>)
    requires
        distinct(entered),
    ensures
        ({
            let (k, rest) = next_key(pending, entered);
            &&& k is Some ==> !entered.contains(k.unwrap())
            &&& k is Some ==> distinct(entered.push(k.unwrap()))
            &&& k is Some ==> rest.len() < pending.len()
        }),
{
    lemma_next_key(pending, entered);
    let (k, rest) = next_key(pending, entered);
    if k is Some {
        let e2 = entered.push(k.unwrap());
        assert forall|i: int, j: int| 0 <= i < j < e2.len() implies #[trigger] e2[i] != #[trigger] e2[j] by {
            if j == entered.len() {
                assert(entered[i] == e2[i]);
                if e2[i] == e2[j] {
                    assert(entered.contains(k.unwrap()));
                }
            }
        }
    }
}

/// Every key in `handed` is still waiting on the stack or was entered.
pub open spec fn accounted(handed: Seq<Seq<u8>>, pending: Seq<Seq<u8>>, entered: Seq<Seq<u8>>) -> bool {
    forall|x: Seq<u8>| #[trigger] handed.contains(x) ==> pending.contains(x) || entered.contains(x)
}

proof fn lemma_next_key_keeps(pending: Seq<Seq<u8>>, entered: Seq<Seq<u8>>)
    ensures
        forall|x: Seq<u8>| #[trigger] pending.contains(x) ==> next_key(pending, entered).1.contains(x)
            || entered.contains(x) || next_key(pending, entered).0 == Some(x),
        next_key(pending, entered).0 is None ==> forall|x: Seq<u8>| #[trigger] pending.contains(x)
            ==> entered.contains(x),
        next_key(pending, entered).0 is None ==> next_key(pending, entered).1.len() == 0,
        next_key(pending, entered).0 is Some ==> pending.contains(next_key(pending, entered).0.unwrap()),
        forall|x: Seq<u8>| #[trigger] next_key(pending, entered).1.contains(x) ==> pending.contains(x),
    decreases pending.len(),
{
    if pending.len() > 0 {
        let d = pending.drop_last();
        if entered.contains(pending.last()) {
            lemma_next_key_keeps(d, entered);
        }
        assert forall|x: Seq<u8>| #[trigger] pending.contains(x) implies d.contains(x) || x
            == pending.last() by {
            let i = choose|i: int| 0 <= i < pending.len() && pending[i] == x;
            if i < pending.len() - 1 {
                assert(d[i] == x);
            }
        }
        assert forall|x: Seq<u8>| #[trigger] d.contains(x) implies pending.contains(x) by {
            let i = choose|i: int| 0 <= i < d.len() && d[i] == x;
            assert(pending[i] == x);
        }
        assert(pending.contains(pending.last())) by {
            assert(pending[pending.len() - 1] == pending.last());
        }
    }
}

/// No document is missed. Call a key handed once it was given to the walk:
/// the root, and the includes handed back for each document entered. Every
/// handed key is on the stack or entered; handing back includes and taking
/// the next key keep it so; and once no key is left to take, every handed
/// key was entered. With the law above, the walk enters each document that
/// the root reaches through includes exactly once.
pub proof fn law_walk_accounts(
    root: Seq<u8>,
    handed: Seq<Seq<u8>>,
    pending: Seq<Seq<u8>>,
    entered: Seq<Seq<u8>>,
    kids: Seq<Seq<u8>>,
)
    requires
        accounted(handed, pending, entered),
    ensures
        accounted(seq![root], seq![root], seq![]),
        accounted(handed + kids, push_kids(pending, kids), entered),
        ({
            let (k, rest) = next_key(pending, entered);
            &&& accounted(
                handed,
                rest,
                match k {
                    Some(key) => entered.push(key),
                    None => entered,
                },
            )
            &&& k is None ==> forall|x: Seq<u8>| #[trigger] handed.contains(x) ==> entered.contains(x)
        }),
{
    assert(seq![root][0] == root);
    let p2 = push_kids(pending, kids);
    let h2 = handed + kids;
    assert forall|x: Seq<u8>| #[trigger] h2.contains(x) implies p2.contains(x) || entered.contains(
        x,
    ) by {
        let i = choose|i: int| 0 <= i < h2.len() && h2[i] == x;
        if i < handed.len() {
            assert(handed[i] == x);
            assert(handed.contains(x));
            if pending.contains(x) {
                let j = choose|j: int| 0 <= j < pending.len() && pending[j] == x;
                assert(p2[j] == x);
            }
        } else {
            let j = i - handed.len();
            assert(kids[j] == x);
            let r = kids.reverse();
            assert(r[kids.len() - 1 - j] == x);
            assert(p2[pending.len() + kids.len() - 1 - j] == x);
        }
    }
    lemma_next_key_keeps(pending, entered);
    let (k, rest) = next_key(pending, entered);
    let e2 = match k {
        Some(key) => entered.push(key),
        None => entered,
    };
    assert forall|x: Seq<u8>| #[trigger] handed.contains(x) implies rest.contains(x)
        || e2.contains(x) by {
        assert(pending.contains(x) || entered.contains(x));
        if entered.contains(x) {
            let j = choose|j: int| 0 <= j < entered.len() && entered[j] == x;
            assert(e2[j] == x);
        }
        if k == Some(x) {
            assert(e2[entered.len() as int] == x);
        }
    }
}

/// A graph of includes: documents, each with the keys of its includes in
/// the order they are written.
pub type IncludeGraph = Seq<(Seq<u8>, Seq<Seq<u8>>)>;

/// The includes of `k` in `g`: those of its last entry, none without one.
pub open spec fn includes_of(g: IncludeGraph, k: Seq<u8>) -> Seq<Seq<u8>>
    decreases g.len(),
{
    if g.len() == 0 {
        seq![]
    } else if g.last().0 == k {
        g.last().1
    } else {
        includes_of(g.drop_last(), k)
    }
}

/// Every include written anywhere in `g`.
pub open spec fn all_includes(g: IncludeGraph) -> Seq<Seq<u8>>
    decreases g.len(),
{
    if g.len() == 0 {
        seq![]
    } else {
        all_includes(g.drop_last()) + g.last().1
    }
}

/// `p` follows includes: each key after the first is an include of the one
/// before it.
pub open spec fn is_include_path(g: IncludeGraph, p: Seq<Seq<u8>>) -> bool {
    &&& p.len() > 0
    &&& forall|i: int| 0 <= i < p.len() - 1 ==> #[trigger] includes_of(g, p[i]).contains(p[i + 1])
}

/// `x` is `root` or reached from it through includes.
pub open spec fn reachable(g: IncludeGraph, root: Seq<u8>, x: Seq<u8>) -> bool {
    exists|p: Seq<Seq<u8>>| #[trigger] is_include_path(g, p) && p[0] == root && p.last() == x
}

/// `n` steps of a walk that hands back, for each key it enters, its
/// includes in `g`: the stack and the keys entered at the end. It stops
/// early when no key is left to enter.
pub open spec fn walk_run(
    g: IncludeGraph,
    pending: Seq<Seq<u8>>,
    entered: Seq<Seq<u8>>,
    n: nat,
) -> (Seq<Seq<u8>>, Seq<Seq<u8>>)
    decreases n,
{
    if n == 0 {
        (pending, entered)
    } else {
        let (k, rest) = next_key(pending, entered);
        match k {
            None => (rest, entered),
            Some(key) => walk_run(g, push_kids(rest, includes_of(g, key)), entered.push(key), (n - 1) as nat),
        }
    }
}

/// The keys a walk from `root` can meet: the root and every include in `g`.
pub open spec fn key_universe(g: IncludeGraph, root: Seq<u8>) -> Seq<Seq<u8>> {
    seq![root] + all_includes(g)
}

spec fn walk_inv(g: IncludeGraph, root: Seq<u8>, pending: Seq<Seq<u8>>, entered: Seq<Seq<u8>>) -> bool {
    &&& distinct(entered)
    &&& forall|x: Seq<u8>| #[trigger] pending.contains(x) ==> reachable(g, root, x) && key_universe(
        g,
        root,
    ).contains(x)
    &&& forall|x: Seq<u8>| #[trigger] entered.contains(x) ==> reachable(g, root, x) && key_universe(
        g,
        root,
    ).contains(x)
    &&& forall|y: Seq<u8>, c: Seq<u8>| #[trigger] entered.contains(y) && #[trigger] includes_of(
        g,
        y,
    ).contains(c) ==> pending.contains(c) || entered.contains(c)
    &&& pending.contains(root) || entered.contains(root)
    &&& entered.len() == 0 ==> pending == seq![root]
    &&& entered.len() > 0 ==> entered[0] == root
}

proof fn lemma_includes_in_all(g: IncludeGraph, k: Seq<u8>, c: Seq<u8>)
    requires
        includes_of(g, k).contains(c),
    ensures
        all_includes(g).contains(c),
    decreases g.len(),
{
    if g.len() > 0 {
        let a = all_includes(g.drop_last());
        if g.last().0 == k {
            let i = choose|i: int| 0 <= i < g.last().1.len() && g.last().1[i] == c;
            assert(all_includes(g)[a.len() + i] == c);
        } else {
            lemma_includes_in_all(g.drop_last(), k, c);
            let i = choose|i: int| 0 <= i < a.len() && a[i] == c;
            assert(all_includes(g)[i] == c);
        }
    }
}

proof fn lemma_reach_step(g: IncludeGraph, root: Seq<u8>, y: Seq<u8>, c: Seq<u8>)
    requires
        reachable(g, root, y),
        includes_of(g, y).contains(c),
    ensures
        reachable(g, root, c),
{
    let p = choose|p: Seq<Seq<u8>>| #[trigger] is_include_path(g, p) && p[0] == root && p.last() == y;
    let q = p.push(c);
    assert forall|i: int| 0 <= i < q.len() - 1 implies #[trigger] includes_of(g, q[i]).contains(q[i + 1]) by {
        if i < p.len() - 1 {
            assert(q[i] == p[i] && q[i + 1] == p[i + 1]);
            assert(includes_of(g, p[i]).contains(p[i + 1]));
        } else {
            assert(q[i] == y && q[i + 1] == c);
        }
    }
    assert(is_include_path(g, q) && q[0] == root && q.last() == c);
}

proof fn lemma_walk_step(g: IncludeGraph, root: Seq<u8>, pending: Seq<Seq<u8>>, entered: Seq<Seq<u8>>)
    requires
        walk_inv(g, root, pending, entered),
    ensures
        ({
            let (k, rest) = next_key(pending, entered);
            match k {
                None => rest.len() == 0 && walk_inv(g, root, rest, entered),
                Some(key) => walk_inv(g, root, push_kids(rest, includes_of(g, key)), entered.push(key)),
            }
        }),
{
    lemma_next_key_keeps(pending, entered);
    law_walk_enters_once(pending, entered);
    let (k, rest) = next_key(pending, entered);
    let u = key_universe(g, root);
    match k {
        None => {
            assert forall|y: Seq<u8>, c: Seq<u8>| #[trigger] entered.contains(y) && #[trigger] includes_of(
                g,
                y,
            ).contains(c) implies rest.contains(c) || entered.contains(c) by {
                if pending.contains(c) {
                }
            }
        },
        Some(key) => {
            let kids = includes_of(g, key);
            let p2 = push_kids(rest, kids);
            let e2 = entered.push(key);
            assert(pending.contains(key));
            assert forall|x: Seq<u8>| #[trigger] p2.contains(x) implies rest.contains(x) || kids.contains(x) by {
                let i = choose|i: int| 0 <= i < p2.len() && p2[i] == x;
                if i < rest.len() {
                    assert(rest[i] == x);
                } else {
                    let j = i - rest.len();
                    assert(kids.reverse()[j] == x);
                    assert(kids[kids.len() - 1 - j] == x);
                }
            }
            assert forall|x: Seq<u8>| kids.contains(x) implies #[trigger] p2.contains(x) by {
                let j = choose|j: int| 0 <= j < kids.len() && kids[j] == x;
                assert(kids.reverse()[kids.len() - 1 - j] == x);
                assert(p2[rest.len() + kids.len() - 1 - j] == x);
            }
            assert forall|x: Seq<u8>| rest.contains(x) implies #[trigger] p2.contains(x) by {
                let j = choose|j: int| 0 <= j < rest.len() && rest[j] == x;
                assert(p2[j] == x);
            }
            assert forall|x: Seq<u8>| #[trigger] e2.contains(x) implies entered.contains(x) || x == key by {
                let i = choose|i: int| 0 <= i < e2.len() && e2[i] == x;
                if i < entered.len() {
                    assert(entered[i] == x);
                }
            }
            assert forall|x: Seq<u8>| entered.contains(x) implies #[trigger] e2.contains(x) by {
                let j = choose|j: int| 0 <= j < entered.len() && entered[j] == x;
                assert(e2[j] == x);
            }
            assert(e2.contains(key)) by {
                assert(e2[entered.len() as int] == key);
            }
            assert forall|x: Seq<u8>| #[trigger] p2.contains(x) implies reachable(g, root, x) && u.contains(x) by {
                if kids.contains(x) {
                    lemma_reach_step(g, root, key, x);
                    lemma_includes_in_all(g, key, x);
                    let a = all_includes(g);
                    let i = choose|i: int| 0 <= i < a.len() && a[i] == x;
                    assert(u[i + 1] == x);
                }
            }
            assert forall|y: Seq<u8>, c: Seq<u8>| #[trigger] e2.contains(y) && #[trigger] includes_of(
                g,
                y,
            ).contains(c) implies p2.contains(c) || e2.contains(c) by {
                if y != key {
                    assert(entered.contains(y));
                    assert(pending.contains(c) || entered.contains(c));
                }
            }
            if entered.len() == 0 {
                assert(pending == seq![root]);
                assert(key == root);
            }
            assert(e2[0] == root);
        },
    }
}

proof fn lemma_walk_run(g: IncludeGraph, root: Seq<u8>, pending: Seq<Seq<u8>>, entered: Seq<Seq<u8>>, n: nat)
    requires
        walk_inv(g, root, pending, entered),
    ensures
        walk_inv(g, root, walk_run(g, pending, entered, n).0, walk_run(g, pending, entered, n).1),
        walk_run(g, pending, entered, n).0.len() == 0 || walk_run(g, pending, entered, n).1.len()
            == entered.len() + n,
    decreases n,
{
    if n > 0 {
        lemma_walk_step(g, root, pending, entered);
        let (k, rest) = next_key(pending, entered);
        if let Some(key) = k {
            lemma_walk_run(g, root, push_kids(rest, includes_of(g, key)), entered.push(key), (n - 1) as nat);
        }
    }
}

proof fn lemma_distinct_bound(e: Seq<Seq<u8>>, u: Seq<Seq<u8>>)
    requires
        distinct(e),
        forall|x: Seq<u8>| #[trigger] e.contains(x) ==> u.contains(x),
    ensures
        e.len() <= u.len(),
{
    broadcast use vstd::seq_lib::seq_to_set_is_finite;
    assert(e.no_duplicates()) by {
        assert forall|i: int, j: int| 0 <= i < e.len() && 0 <= j < e.len() && i != j implies e[i] != e[j] by {
            if i < j {
                assert(e[i] != e[j]);
            } else {
                assert(e[j] != e[i]);
            }
        }
    }
    e.unique_seq_to_set();
    u.lemma_cardinality_of_set();
    assert(e.to_set().subset_of(u.to_set()));
    vstd::set_lib::lemma_len_subset(e.to_set(), u.to_set());
}

/// The walk enters exactly the documents the root reaches. Run it from
/// `root` on the graph `g`, handing back the includes of each key it
/// enters: within one step more than the keys `g` can name, it stops with
/// nothing left on the stack; the keys it entered are then the root first,
/// each once, and a key was entered if and only if it is the root or
/// reached from the root through includes.
pub proof fn law_walk_reaches(g: IncludeGraph, root: Seq<u8>)
    ensures
        ({
            let (p, e) = walk_run(g, seq![root], seq![], key_universe(g, root).len() + 1);
            &&& p.len() == 0
            &&& e.len() > 0 && e[0] == root
            &&& distinct(e)
            &&& forall|x: Seq<u8>| #[trigger] e.contains(x) <==> reachable(g, root, x)
        }),
{
    let u = key_universe(g, root);
    let n = u.len() + 1;
    let p0 = seq![root];
    let e0 = Seq::<Seq<u8>>::empty();
    assert(p0[0] == root);
    assert(u[0] == root);
    assert(is_include_path(g, p0));
    assert(reachable(g, root, root));
    assert forall|x: Seq<u8>| #[trigger] p0.contains(x) implies reachable(g, root, x) && u.contains(x) by {
        assert(p0[0] == x);
    }
    assert(p0.contains(root));
    assert(walk_inv(g, root, p0, e0));
    lemma_walk_run(g, root, p0, e0, n as nat);
    let (p, e) = walk_run(g, p0, e0, n as nat);
    lemma_distinct_bound(e, u);
    assert(p.len() == 0);
    assert(e.contains(root));
    assert forall|x: Seq<u8>| reachable(g, root, x) implies #[trigger] e.contains(x) by {
        let q = choose|q: Seq<Seq<u8>>| #[trigger] is_include_path(g, q) && q[0] == root && q.last() == x;
        assert forall|i: int| 0 <= i < q.len() implies #[trigger] e.contains(q[i]) by {
            lemma_path_entered(g, root, e, q, i);
        }
        assert(e.contains(q[q.len() - 1]));
    }
}

proof fn lemma_path_entered(g: IncludeGraph, root: Seq<u8>, e: Seq<Seq<u8>>, q: Seq<Seq<u8>>, i: int)
    requires
        walk_inv(g, root, seq![], e),
        is_include_path(g, q),
        q[0] == root,
        0 <= i < q.len(),
    ensures
        e.contains(q[i]),
    decreases i,
{
    if i == 0 {
        assert(!Seq::<Seq<u8>>::empty().contains(root));
    } else {
        lemma_path_entered(g, root, e, q, i - 1);
        assert(includes_of(g, q[i - 1]).contains(q[i - 1 + 1]));
        assert(!Seq::<Seq<u8>>::empty().contains(q[i]));
    }
}

/// The tokens of a text are determined by the text and the file: any two
/// lists that both meet the lexer's success contract (that of
/// `tokenize_str`, and of `run_lexer` when it reports nothing) agree token
/// by token in kind, text, location and arguments. So the tokens
/// `run_lexer` hands back are those `tokenize_str` gives.
pub proof fn law_lexer_results_agree(file: PathBuf, text: Seq<char>, a: Seq<Token>, b: Seq<Token>)
    requires
        toks_view(a) == lex_spec(text).0.push(
            tok(TokenKind::Eof, seq![], lines_of(text).len() as int + 1, seq![]),
        ),
        toks_view(b) == lex_spec(text).0.push(
            tok(TokenKind::Eof, seq![], lines_of(text).len() as int + 1, seq![]),
        ),
        forall|k: int| 0 <= k < a.len() ==> loc_in(#[trigger] a[k], file),
        forall|k: int| 0 <= k < b.len() ==> loc_in(#[trigger] b[k], file),
    ensures
        a.len() == b.len(),
        forall|k: int|
            0 <= k < a.len() ==> {
                &&& (#[trigger] a[k]).kind == b[k].kind
                &&& a[k].raw@ == b[k].raw@
                &&& a[k].loc == b[k].loc
                &&& strings_view(a[k].args@) == strings_view(b[k].args@)
            },
{
    assert(toks_view(a).len() == a.len() && toks_view(b).len() == b.len());
    assert(toks_view(a).len() == toks_view(b).len());
    assert forall|k: int| 0 <= k < a.len() implies {
        &&& (#[trigger] a[k]).kind == b[k].kind
        &&& a[k].raw@ == b[k].raw@
        &&& a[k].loc == b[k].loc
        &&& strings_view(a[k].args@) == strings_view(b[k].args@)
    } by {
        assert(k < b.len());
        assert(toks_view(a)[k] == tok_view(a[k]));
        assert(toks_view(b)[k] == tok_view(b[k]));
        assert(toks_view(a)[k] == toks_view(b)[k]);
        assert(tok_view(a[k]) == tok_view(b[k]));
        assert(loc_in(a[k], file) && loc_in(b[k], file));
    }
}

// ---------------------------------------------------------------------------
// Indented directives
// ---------------------------------------------------------------------------

proof fn lemma_one_line(x: Seq<char>)
    requires
        !x.contains('\n'),
    ensures
        lines_of(x.push('\n')) == seq![x.push('\n')],
{
    let t = x.push('\n');
    lemma_nl_end(t, 0);
    let e = nl_end(t, 0);
    if e < t.len() {
        assert(t[e - 1] == '\n');
        assert(x[e - 1] == '\n');
        assert(x.contains('\n'));
    }
    assert(t.subrange(0, t.len() as int) == t);
    assert(lines_from(t, t.len() as int) == Seq::<Seq<char>>::empty());
    assert(seq![t] + Seq::<Seq<char>>::empty() == seq![t]);
}

proof fn lemma_trim_shift(a: char, z: Seq<char>, e: int, c: char)
    requires
        0 <= e <= z.len(),
        a != c,
    ensures
        trim_end_char(seq![a] + z, e + 1, c) == trim_end_char(z, e, c) + 1,
    decreases e,
{
    let y = seq![a] + z;
    if e > 0 {
        assert(y[e] == z[e - 1]);
        if z[e - 1] == c {
            lemma_trim_shift(a, z, e - 1, c);
        }
    } else {
        assert(y[0] == a);
    }
}

/// `strip_newline` of a text that opens with a character other than a
/// line break keeps that character.
proof fn lemma_strip_newline_shift(a: char, z: Seq<char>)
    requires
        a != '\n',
        a != '\r',
    ensures
        strip_newline(seq![a] + z) == seq![a] + strip_newline(z),
        strip_newline_len(seq![a] + z) == strip_newline_len(z) + 1,
{
    let y = seq![a] + z;
    lemma_trim_end_char(z, z.len() as int, '\n');
    let n1 = trim_end_char(z, z.len() as int, '\n');
    lemma_trim_shift(a, z, z.len() as int, '\n');
    assert(y.len() == z.len() + 1);
    lemma_trim_shift(a, z, n1, '\r');
    lemma_trim_end_char(z, n1, '\r');
    let n = strip_newline_len(z);
    assert(y.subrange(0, n + 1) == seq![a] + z.subrange(0, n));
}

/// The line `w` + `$$` + `rest`, with `w` whitespace, has its whitespace
/// run end where `w` does.
proof fn lemma_ws_prefix(w: Seq<char>, r: Seq<char>)
    requires
        forall|i: int| 0 <= i < w.len() ==> #[trigger] w[i] == ' ' || w[i] == '\t',
        r.len() > 0,
        r[0] == '$',
    ensures
        ws_end(w + r, 0) == w.len(),
{
    let l = w + r;
    lemma_ws_end(l, 0);
    let e = ws_end(l, 0);
    assert(l[w.len() as int] == '$');
    if e > w.len() {
        assert(is_ws(l[w.len() as int]));
    }
    if e < w.len() {
        assert(l[e] == w[e]);
        assert(w[e] == ' ' || w[e] == '\t');
    }
}

/// A `$$` directive indented by spaces and tabs lexes exactly like the same
/// directive written with one `$` in the first column: for a one-line text,
/// the tokens (kind, text, line, arguments) and the outcome are the same.
pub proof fn law_indented_double_dollar(w: Seq<char>, d: Seq<char>)
    requires
        forall|i: int| 0 <= i < w.len() ==> #[trigger] w[i] == ' ' || w[i] == '\t',
        d.len() > 0,
        d[0] == '$',
        !(d.len() > 1 && d[1] == '$'),
        !d.contains('\n'),
    ensures
        lex_spec((w + seq!['$'] + d).push('\n')) == lex_spec(d.push('\n')),
        lines_of((w + seq!['$'] + d).push('\n')).len() == lines_of(d.push('\n')).len(),
{
    let x1 = w + seq!['$'] + d;
    let l1 = x1.push('\n');
    let l2 = d.push('\n');
    assert(!x1.contains('\n')) by {
        if x1.contains('\n') {
            let k = choose|k: int| 0 <= k < x1.len() && x1[k] == '\n';
            if k < w.len() {
                assert(x1[k] == w[k]);
            } else if k == w.len() {
                assert(x1[k] == '$');
            } else {
                assert(x1[k] == d[k - w.len() - 1]);
                assert(d.contains('\n'));
            }
        }
    }
    lemma_one_line(x1);
    lemma_one_line(d);
    // the two lines have the same directive text
    let z = l2;
    let r1 = seq!['$'] + z;
    assert(l1 == w + r1);
    lemma_ws_prefix(w, r1);
    assert(lead_stripped(l1) == r1);
    lemma_ws_end(l2, 0);
    assert(ws_end(l2, 0) == 0) by {
        assert(l2[0] == '$');
    }
    assert(lead_stripped(l2) == l2);
    lemma_strip_newline_shift('$', z);
    let st2 = strip_newline(z);
    lemma_trim_end_char(z, z.len() as int, '\n');
    lemma_trim_end_char(z, trim_end_char(z, z.len() as int, '\n'), '\r');
    assert(st2.len() >= 1) by {
        if strip_newline_len(z) == 0 {
            let n1 = trim_end_char(z, z.len() as int, '\n');
            if n1 > 0 {
                assert(z[0] == '\r');
            } else {
                assert(z[0] == '\n');
            }
        }
    }
    assert(st2[0] == '$');
    reveal(effective);
    assert(effective(l1) == st2) by {
        let st1 = strip_newline(lead_stripped(l1));
        assert(st1 == seq!['$'] + st2);
        assert(st1.subrange(1, st1.len() as int) == st2);
    }
    assert(effective(l2) == st2) by {
        if st2.len() >= 2 {
            assert(st2[1] == d[1]);
        }
    }
    assert(is_directive_line(l1)) by {
        reveal(is_directive_line);
        if w.len() == 0 {
            assert(l1[0] == '$');
        } else {
            assert(l1[w.len() as int] == '$');
            assert(l1[w.len() as int + 1] == '$');
        }
    }
    assert(is_directive_line(l2)) by {
        reveal(is_directive_line);
        assert(l2[0] == '$');
    }
    assert(!is_comment_line(l1)) by {
        if w.len() > 0 {
            assert(l1[0] == w[0]);
        } else {
            assert(l1[0] == '$');
        }
    }
    assert(!is_comment_line(l2));
    lemma_directive_lines_lex(l1, l2);
}

proof fn lemma_directive_lines_lex(l1: Seq<char>, l2: Seq<char>)
    requires
        is_directive_line(l1),
        is_directive_line(l2),
        !is_comment_line(l1),
        !is_comment_line(l2),
        effective(l1) == effective(l2),
    ensures
        lex_from(seq![l1], 0, false) == lex_from(seq![l2], 0, false),
{
    let ls1 = seq![l1];
    let ls2 = seq![l2];
    let eff = effective(l1);
    reveal(macro_token);
    assert(macro_stop(ls1, 1) == 1);
    assert(macro_stop(ls2, 1) == 1);
    assert(ls1.subrange(1, 1) == ls2.subrange(1, 1));
    assert(macro_token(eff, ls1, 0) == macro_token(eff, ls2, 0));
    assert(lex_from(ls1, 1, false) == lex_from(ls2, 1, false));
    assert(lex_from(ls1, 1, true) == lex_from(ls2, 1, true));
    assert(lex_from(ls1, 0, false) == lex_from(ls2, 0, false));
}

// ---------------------------------------------------------------------------
// `not` and `set`
// ---------------------------------------------------------------------------

proof fn lemma_mode_not_set()
    ensures
        mode_of_kw(seq!['n', 'o', 't']) == Mode::NotSet,
        mode_of_kw(seq!['s', 'e', 't']) == Mode::IsSet,
{
    let n = seq!['n', 'o', 't'];
    let s = seq!['s', 'e', 't'];
    assert(n.len() == 3 && s.len() == 3);
    assert(n[0] == 'n' && s[0] == 's');
    assert(n != s);
    assert(seq!['e', 'x', 'i', 's', 't'].len() == 5);
    assert(seq!['n', 'o', 't', '_', 'e', 'x', 'i', 's', 't'].len() == 9);
    assert(seq!['e', 'r', 'r', 'o', 'r', 'l', 'e', 'v', 'e', 'l'].len() == 10);
    assert(seq!['s', 'e', 't', 'e', 'n', 'v'].len() == 6);
    assert(seq!['n', 'o', 't', '_', 's', 'e', 't', 'e', 'n', 'v'].len() == 10);
    assert(seq!['s', 'e', 't', 'g', 'l', 'o', 'b', 'a', 'l'].len() == 9);
    assert(seq!['s', 'e', 't', 'l', 'o', 'c', 'a', 'l'].len() == 8);
}

proof fn lemma_tag_lowers(t: Seq<char>, k: Seq<char>)
    requires
        ascii_ci_equal(t, k),
        forall|i: int| 0 <= i < k.len() ==> 'a' <= #[trigger] k[i] <= 'z',
    ensures
        lowercase(t) == k,
{
    assert forall|i: int| 0 <= i < t.len() implies (#[trigger] t[i] as u32) < 128 by {
        assert(ascii_ci(t[i], k[i]));
        assert('a' <= k[i] <= 'z');
    }
    assert forall|i: int| 0 <= i < t.len() implies #[trigger] ascii_lower(t)[i] == k[i] by {
        assert(ascii_ci(t[i], k[i]));
        assert('a' <= k[i] <= 'z');
    }
    assert(ascii_lower(t) =~= k);
}

/// `not` is the negation of `set`, when written as a tag: under the tags
/// `not` and `set`, in any mix of upper and lower case, a condition
/// evaluates to opposite values (whatever the condition, as both test
/// whether its trimmed, lowercased and interpolated text is a defined
/// variable).
pub proof fn law_not_tag_negates_set(
    raw: Seq<char>,
    not_tag: Seq<char>,
    set_tag: Seq<char>,
    m: Map<Seq<char>, Seq<char>>,
)
    requires
        ascii_ci_equal(not_tag, seq!['n', 'o', 't']),
        ascii_ci_equal(set_tag, seq!['s', 'e', 't']),
    ensures
        cond_eval(raw, not_tag, m).0 == not_tri(cond_eval(raw, set_tag, m).0),
{
    lemma_mode_not_set();
    let n = seq!['n', 'o', 't'];
    let st = seq!['s', 'e', 't'];
    assert(n[0] == 'n' && n[1] == 'o' && n[2] == 't');
    assert(st[0] == 's' && st[1] == 'e' && st[2] == 't');
    lemma_tag_lowers(not_tag, n);
    lemma_tag_lowers(set_tag, st);
}

pub(crate) proof fn lemma_trim_plain(t: Seq<char>)
    requires
        t.len() > 0,
        !is_ws(t[0]),
        !is_ws(t[t.len() - 1]),
    ensures
        crate::text::trim(t) == t,
{
    assert(ws_end(t, 0) == 0);
    assert(crate::text::ws_start_back(t, 0, t.len() as int) == t.len());
    assert(t.subrange(0, t.len() as int) == t);
}

/// `not set X` is the negation of `set X`, when written as a condition
/// prefix (for a name `X` with no whitespace at either end).
pub proof fn law_not_prefix_negates_set(x: Seq<char>, m: Map<Seq<char>, Seq<char>>)
    requires
        x.len() > 0,
        !is_ws(x[0]),
        !is_ws(x[x.len() - 1]),
    ensures
        cond_eval(seq!['n', 'o', 't', ' ', 's', 'e', 't', ' '] + x, seq![], m).0 == not_tri(
            cond_eval(seq!['s', 'e', 't', ' '] + x, seq![], m).0,
        ),
{
    use_prefix_rules(x);
    lemma_mode_not_set();
}

proof fn use_prefix_rules(x: Seq<char>)
    requires
        x.len() > 0,
        !is_ws(x[0]),
        !is_ws(x[x.len() - 1]),
    ensures
        condition_prefix(seq!['n', 'o', 't', ' ', 's', 'e', 't', ' '] + x) == (
        seq!['n', 'o', 't'], x),
        condition_prefix(seq!['s', 'e', 't', ' '] + x) == (seq!['s', 'e', 't'], x),
{
    let t1 = seq!['n', 'o', 't', ' ', 's', 'e', 't', ' '] + x;
    let t2 = seq!['s', 'e', 't', ' '] + x;
    assert(t1[0] == 'n');
    assert(t1[t1.len() - 1] == x[x.len() - 1]);
    lemma_trim_plain(t1);
    assert(t2[0] == 's');
    assert(t2[t2.len() - 1] == x[x.len() - 1]);
    lemma_trim_plain(t2);
    lemma_trim_plain(x);
    // `not set X`: the first rule matches
    let r0 = prefix_rule(0);
    assert forall|i: int| 0 <= i < r0.0.len() implies #[trigger] ascii_ci(t1[i], r0.0[i]) by {
        assert(t1[i] == r0.0[i]);
    }
    assert(ascii_ci_prefix(t1, r0.0));
    assert(t1.subrange(8, t1.len() as int) == x);
    // `set X`: the rules for `not …` fail on the first character, then `set ` matches
    assert forall|i: int| 0 <= i < 6 implies !ascii_ci_prefix(t2, #[trigger] prefix_rule(i).0) by {
        assert(prefix_rule(i).0[0] == 'n');
        assert(!ascii_ci(t2[0], prefix_rule(i).0[0]));
    }
    let r6 = prefix_rule(6);
    assert forall|i: int| 0 <= i < r6.0.len() implies #[trigger] ascii_ci(t2[i], r6.0[i]) by {
        assert(t2[i] == r6.0[i]);
    }
    assert(ascii_ci_prefix(t2, r6.0));
    assert(t2.subrange(4, t2.len() as int) == x);
    assert(prefix_from(t2, 0) == prefix_from(t2, 1));
    assert(prefix_from(t2, 1) == prefix_from(t2, 2));
    assert(prefix_from(t2, 2) == prefix_from(t2, 3));
    assert(prefix_from(t2, 3) == prefix_from(t2, 4));
    assert(prefix_from(t2, 4) == prefix_from(t2, 5));
    assert(prefix_from(t2, 5) == prefix_from(t2, 6));
}

} // verus!
