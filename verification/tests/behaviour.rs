use std::collections::HashMap;
use std::path::PathBuf;

use gams_lsp::document::build_body;
use gams_lsp::includes::IncludeWalk;
use gams_lsp::features::{body_point_to_lsp, lsp_to_body_point, LspPosition};
use gams_lsp::symbols::{Symbol, SymbolKind, SymbolTable};
use gams_lsp::types::{Severity, TokenKind};
use gams_lsp::{evaluate_condition, interpolate, tokenize_str, Diagnostic, SourceLocation};

fn loc() -> SourceLocation {
    SourceLocation::new(PathBuf::from("test.gms"), 4, 1)
}

fn eval(cond: &str) -> (Option<bool>, Vec<Diagnostic>) {
    let mut diags = Vec::new();
    let r = evaluate_condition(cond, "", &HashMap::new(), &loc(), &mut diags);
    (r, diags)
}

// ---------------------------------------------------------------------------
// Interpolation
// ---------------------------------------------------------------------------

#[test]
fn interpolation_leaves_plain_text_alone() {
    let env = HashMap::from([("x".to_string(), "1".to_string())]);
    assert_eq!(interpolate("no references here", &env), ("no references here".to_string(), true));
}

#[test]
fn interpolation_without_values_keeps_the_text() {
    let text = "a %b% c %% d %e";
    assert_eq!(interpolate(text, &HashMap::new()), (text.to_string(), false));
}

#[test]
fn interpolation_looks_names_up_lowercased() {
    let env = HashMap::from([("mode".to_string(), "base".to_string())]);
    assert_eq!(interpolate("%MODE%-%Mode%", &env), ("base-base".to_string(), true));
    let env = HashMap::from([("straße".to_string(), "s".to_string())]);
    assert_eq!(interpolate("%STRASSE%%Straße%", &env), ("%STRASSE%s".to_string(), false));
}

// ---------------------------------------------------------------------------
// Conditions
// ---------------------------------------------------------------------------

#[test]
fn unknown_variable_keeps_all_branches() {
    let (r, diags) = eval("%undefined% == 1");
    assert_eq!(r, None);
    assert!(diags.is_empty());
}

#[test]
fn comparisons_mirror() {
    assert_eq!(eval("3 < 5").0, Some(true));
    assert_eq!(eval("5 > 3").0, Some(true));
    assert_eq!(eval("5 <= 5").0, Some(true));
    assert_eq!(eval("5 >= 6").0, Some(false));
    assert_eq!(eval("2 <> 2").0, Some(false));
    assert_eq!(eval("2 != 3").0, Some(true));
}

#[test]
fn numbers_compare_by_value() {
    assert_eq!(eval("2 == 2.0").0, Some(true));
    assert_eq!(eval("-1 < 0").0, Some(true));
    assert_eq!(eval("10 > 9").0, Some(true));
    assert_eq!(eval("inf > 1").0, Some(true));
    assert_eq!(eval("nan == nan").0, Some(false));
    assert_eq!(eval("nan != nan").0, Some(true));
    assert_eq!(eval("nan < 1").0, Some(false));
}

#[test]
fn texts_compare_lowercased_and_trimmed() {
    assert_eq!(eval("abc == ABC").0, Some(true));
    assert_eq!(eval("'x y' == \"X Y\"").0, Some(true));
    assert_eq!(eval("abc < 5").0, Some(false));
    assert_eq!(eval("abc > 5").0, Some(true));
}

#[test]
fn numbers_against_texts_compare_as_written() {
    assert_eq!(eval("1.50 == '1.5'").0, Some(true));
    assert_eq!(eval("100 == '100'").0, Some(true));
    assert_eq!(eval("-0.0 == '-0'").0, Some(true));
    assert_eq!(eval("0.25 == '0.250'").0, Some(false));
}

#[test]
fn bare_values_are_truthy_when_non_zero_or_non_blank() {
    assert_eq!(eval("0").0, Some(false));
    assert_eq!(eval("0.0").0, Some(false));
    assert_eq!(eval("7").0, Some(true));
    assert_eq!(eval("word").0, Some(true));
    assert_eq!(eval("'  '").0, Some(false));
    assert_eq!(eval("not 0").0, Some(true));
}

#[test]
fn three_valued_connectives() {
    assert_eq!(eval("1==1 or 1==2").0, Some(true));
    assert_eq!(eval("1==2 or 1==1").0, Some(true));
    assert_eq!(eval("1==2 and 1==1").0, Some(false));
    assert_eq!(eval("not (1==2 or 2==2)").0, Some(false));
}

#[test]
fn missing_paren_is_reported() {
    let (r, diags) = eval("(1 == 1");
    assert_eq!(r, None);
    assert_eq!(diags.len(), 1);
    assert_eq!(diags[0].code, "D010");
    assert_eq!(diags[0].severity, Severity::Info);
    assert_eq!(diags[0].message, "Cannot evaluate condition '(1 == 1': missing ')'");
    assert_eq!(diags[0].loc.line, 4);
}

#[test]
fn unexpected_end_is_reported() {
    let (r, diags) = eval("1 ==");
    assert_eq!(r, None);
    assert_eq!(diags[0].message, "Cannot evaluate condition '1 ==': unexpected end of condition");
}

#[test]
fn unexpected_token_is_reported() {
    let (_, diags) = eval("== 1");
    assert_eq!(diags[0].message, "Cannot evaluate condition '== 1': unexpected token Op(\"==\")");
    let (_, diags) = eval("and");
    assert_eq!(diags[0].message, "Cannot evaluate condition 'and': unexpected token And");
}

#[test]
fn empty_expression_is_unknown_without_diagnostic() {
    let (r, diags) = eval("   ");
    assert_eq!(r, None);
    assert!(diags.is_empty());
}

// ---------------------------------------------------------------------------
// Directives: case folding, word characters and white space
// ---------------------------------------------------------------------------

#[test]
fn directive_keywords_ignore_case() {
    let toks = tokenize_str(PathBuf::from("t.gms"), "$SET x 1\n$ſet y 2\n").unwrap();
    assert_eq!(toks[0].kind, TokenKind::SetLocal);
    assert_eq!(toks[0].args, vec!["x".to_string(), "1".to_string()]);
    assert_eq!(toks[1].kind, TokenKind::SetLocal);
    assert_eq!(toks[1].args, vec!["y".to_string(), "2".to_string()]);
}

#[test]
fn tags_take_unicode_word_characters() {
    let toks = tokenize_str(PathBuf::from("t.gms"), "$ifthen.régión 1==1\n$endif.régión\n").unwrap();
    assert_eq!(toks[0].kind, TokenKind::IfThen);
    assert_eq!(toks[0].args, vec!["régión".to_string(), "1==1".to_string()]);
    assert_eq!(toks[1].kind, TokenKind::EndIf);
    assert_eq!(toks[1].args, vec!["régión".to_string()]);
}

#[test]
fn unicode_white_space_separates_arguments() {
    let toks = tokenize_str(PathBuf::from("t.gms"), "$set\u{2003}x\u{3000}1\n").unwrap();
    assert_eq!(toks[0].kind, TokenKind::SetLocal);
    assert_eq!(toks[0].args, vec!["x".to_string(), "1".to_string()]);
}

#[test]
fn lexer_ends_every_text_with_eof() {
    for text in ["", "x", "x\n", "$set a b\n* c\n"] {
        let toks = tokenize_str(PathBuf::from("t.gms"), text).unwrap();
        assert_eq!(toks.last().unwrap().kind, TokenKind::Eof);
    }
}

// ---------------------------------------------------------------------------
// Lookup lowercases the query as `str::to_lowercase` does
// ---------------------------------------------------------------------------

#[test]
fn lookup_lowercases_non_ascii_queries() {
    let mut t = SymbolTable::new();
    t.symbols.push(Symbol {
        name: "ärger".to_string(),
        display_name: "Ärger".to_string(),
        kind: SymbolKind::Scalar,
        loc: SourceLocation::new(PathBuf::from("t.gms"), 1, 1),
        description: None,
        domain: None,
    });
    assert_eq!(t.get("ÄRGER").unwrap().display_name, "Ärger");
    assert!(t.get("ARGER").is_none());
}

#[test]
fn double_negation_and_transitive_order() {
    assert_eq!(eval("not not 1==1").0, Some(true));
    assert_eq!(eval("1 < 2.5").0, Some(true));
    assert_eq!(eval("2.5 < 30").0, Some(true));
    assert_eq!(eval("1 < 30").0, Some(true));
    assert_eq!(eval("0.10 == 0.1").0, Some(true));
    // "1e-1" is read as the number 1 followed by the word "e-1"
    assert_eq!(eval("0.1 == 1e-1").0, Some(false));
}

#[test]
fn position_round_trip_through_the_body() {
    let text = "$set a 1\nx = 1;\n* c\ny = 2;\n";
    let toks = tokenize_str(PathBuf::from("t.gms"), text).unwrap();
    let (body, map) = build_body(&toks, &PathBuf::from("t.gms"));
    assert_eq!(body, "x = 1;\ny = 2;\n");
    for pos in [LspPosition { line: 1, character: 2 }, LspPosition { line: 3, character: 0 }] {
        let p = lsp_to_body_point(&map, pos).unwrap();
        assert_eq!(body_point_to_lsp(&map, p), pos);
    }
    assert_eq!(lsp_to_body_point(&map, LspPosition { line: 0, character: 0 }), None);
}

// ---------------------------------------------------------------------------
// Indentation of directives
// ---------------------------------------------------------------------------

fn kinds(src: &str) -> Vec<TokenKind> {
    tokenize_str(PathBuf::from("test.gms"), src)
        .unwrap()
        .into_iter()
        .map(|t| t.kind)
        .collect()
}

#[test]
fn indented_single_dollar_is_body_text() {
    let tokens = tokenize_str(PathBuf::from("test.gms"), "  $set x 1\n").unwrap();
    assert_eq!(tokens.len(), 2);
    assert_eq!(tokens[0].kind, TokenKind::BodyText);
    assert_eq!(tokens[0].raw, "  $set x 1\n");
    assert_eq!(tokens[1].kind, TokenKind::Eof);
}

#[test]
fn tab_indented_single_dollar_is_body_text() {
    assert_eq!(kinds("\t$include a.gms\n"), [TokenKind::BodyText, TokenKind::Eof]);
}

#[test]
fn indented_double_dollar_lexes_like_column_one() {
    let a = tokenize_str(PathBuf::from("test.gms"), " \t $$setglobal g v\n").unwrap();
    let b = tokenize_str(PathBuf::from("test.gms"), "$setglobal g v\n").unwrap();
    assert_eq!(a.len(), b.len());
    for (x, y) in a.iter().zip(b.iter()) {
        assert_eq!(x.kind, y.kind);
        assert_eq!(x.args, y.args);
        assert_eq!(x.loc.line, y.loc.line);
    }
}

#[test]
fn indented_single_dollar_offtext_does_not_close_block() {
    let src = "$ontext\n   $offtext\nhidden\n$offtext\nx=1;\n";
    assert_eq!(
        kinds(src),
        [TokenKind::OnText, TokenKind::OffText, TokenKind::BodyText, TokenKind::Eof]
    );
    let tokens = tokenize_str(PathBuf::from("test.gms"), src).unwrap();
    assert_eq!(tokens[1].loc.line, 4);
    assert_eq!(tokens[2].raw, "x=1;\n");
}

#[test]
fn indented_double_dollar_offtext_closes_block() {
    let src = "$ontext\nhidden\n  $$offtext\nx=1;\n";
    assert_eq!(
        kinds(src),
        [TokenKind::OnText, TokenKind::OffText, TokenKind::BodyText, TokenKind::Eof]
    );
}

// ---------------------------------------------------------------------------
// `not` against `set`
// ---------------------------------------------------------------------------

#[test]
fn not_tag_negates_set_tag() {
    let env = HashMap::from([("mode".to_string(), "base".to_string())]);
    for cond in ["mode", "MODE", "other", "%mode%"] {
        for e in [&env, &HashMap::new()] {
            let s = evaluate_condition(cond, "set", e, &loc(), &mut Vec::new());
            let n = evaluate_condition(cond, "NOT", e, &loc(), &mut Vec::new());
            assert_eq!(n, s.map(|b| !b), "{cond}");
        }
    }
}

#[test]
fn not_prefix_negates_set_prefix() {
    let env = HashMap::from([("mode".to_string(), "".to_string())]);
    for name in ["mode", "Mode", "other"] {
        for e in [&env, &HashMap::new()] {
            let s = evaluate_condition(&format!("set {name}"), "", e, &loc(), &mut Vec::new());
            let n = evaluate_condition(&format!("not set {name}"), "", e, &loc(), &mut Vec::new());
            assert!(s.is_some());
            assert_eq!(n, s.map(|b| !b), "{name}");
        }
    }
    assert_eq!(evaluate_condition("set mode", "", &env, &loc(), &mut Vec::new()), Some(true));
    assert_eq!(evaluate_condition("not set mode", "", &env, &loc(), &mut Vec::new()), Some(false));
}

// ---------------------------------------------------------------------------
// The include walk
// ---------------------------------------------------------------------------

#[test]
fn include_walk_enters_every_reachable_document_once() {
    // a includes b and d; b includes a (a cycle) and c; c includes b; d includes c.
    let includes = |k: &[u8]| -> Vec<Vec<u8>> {
        match k {
            b"a" => vec![b"b".to_vec(), b"d".to_vec()],
            b"b" => vec![b"a".to_vec(), b"c".to_vec()],
            b"c" => vec![b"b".to_vec()],
            b"d" => vec![b"c".to_vec()],
            _ => vec![],
        }
    };
    let mut walk = IncludeWalk::new(b"a".to_vec());
    let mut steps = 0;
    while let Some(k) = walk.next() {
        let kids = includes(&k);
        walk.expand(kids);
        steps += 1;
        assert!(steps <= 4);
    }
    assert_eq!(walk.order, vec![b"a".to_vec(), b"b".to_vec(), b"c".to_vec(), b"d".to_vec()]);
    assert!(walk.pending.is_empty());
    assert!(walk.entered(&b"d".to_vec()));
    assert!(!walk.entered(&b"e".to_vec()));
}
