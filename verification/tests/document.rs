use gams_lsp::document::{build_body, include_paths, run_lexer};
use gams_lsp::tokenize_str;
use gams_lsp::types::{Diagnostic, Severity, SourceLocation};
use std::path::PathBuf;

// ---------------------------------------------------------------------------
// build_body
// ---------------------------------------------------------------------------

#[test]
fn build_body_strips_directives_and_comments() {
    let text = "* comment\n$set x 1\nSets i / 1*3 /;\n";
    let tokens = tokenize_str(PathBuf::from("test.gms"), text).unwrap();
    let (body, map) = build_body(&tokens, &PathBuf::from("test.gms"));
    // Only the body line survives
    assert_eq!(body, "Sets i / 1*3 /;\n");
    // That one body line maps to original line 3
    assert_eq!(map.orig_line(0), Some(3));
}

#[test]
fn build_body_empty_file_gives_empty_body() {
    let tokens = tokenize_str(PathBuf::from("test.gms"), "").unwrap();
    let (body, map) = build_body(&tokens, &PathBuf::from("test.gms"));
    assert!(body.is_empty());
    assert!(map.body_line_to_orig.is_empty());
}

#[test]
fn build_body_ontext_block_excluded() {
    let text = "Scalar x / 1 /;\n$ontext\nthis is a comment\n$offtext\nScalar y / 2 /;\n";
    let tokens = tokenize_str(PathBuf::from("test.gms"), text).unwrap();
    let (body, map) = build_body(&tokens, &PathBuf::from("test.gms"));
    // Lines inside $ontext/$offtext are excluded from body
    assert!(body.contains("Scalar x"));
    assert!(body.contains("Scalar y"));
    assert!(!body.contains("this is a comment"));
    assert_eq!(map.body_line_to_orig.len(), 2);
}

#[test]
fn build_body_source_map_tracks_original_lines() {
    // Line 1: directive (stripped)
    // Line 2: body
    // Line 3: comment (stripped)
    // Line 4: body
    let text = "$set x 1\nSets i / 1*3 /;\n* comment\nScalar y / 2 /;\n";
    let tokens = tokenize_str(PathBuf::from("test.gms"), text).unwrap();
    let (_, map) = build_body(&tokens, &PathBuf::from("test.gms"));
    assert_eq!(map.orig_line(0), Some(2)); // first body line was original line 2
    assert_eq!(map.orig_line(1), Some(4)); // second body line was original line 4
    assert_eq!(map.orig_line(2), None); // no third body line
}

// ---------------------------------------------------------------------------
// Further cases
// ---------------------------------------------------------------------------

#[test]
fn build_body_keeps_file_and_concatenates_lines() {
    let text = "a\n$set x 1\nb\nc";
    let tokens = tokenize_str(PathBuf::from("m.gms"), text).unwrap();
    let (body, map) = build_body(&tokens, &PathBuf::from("m.gms"));
    assert_eq!(body, "a\nb\nc");
    assert_eq!(map.body_line_to_orig, vec![1, 3, 4]);
    assert_eq!(map.orig_file, PathBuf::from("m.gms"));
}

#[test]
fn orig_to_body_line_inverts_the_map() {
    let text = "$set x 1\nSets i / 1*3 /;\n* comment\nScalar y / 2 /;\n";
    let tokens = tokenize_str(PathBuf::from("test.gms"), text).unwrap();
    let (_, map) = build_body(&tokens, &PathBuf::from("test.gms"));
    assert_eq!(map.orig_to_body_line(2), Some(0));
    assert_eq!(map.orig_to_body_line(4), Some(1));
    assert_eq!(map.orig_to_body_line(1), None);
    assert_eq!(map.orig_to_body_line(3), None);
}

#[test]
fn run_lexer_ok_gives_tokens_and_no_diagnostics() {
    let (tokens, diags) = run_lexer(PathBuf::from("t.gms"), "Scalar x / 1 /;\n");
    assert!(diags.is_empty());
    assert_eq!(tokens.len(), 2);
}

#[test]
fn run_lexer_unterminated_ontext_gives_one_error() {
    let (tokens, diags) = run_lexer(PathBuf::from("t.gms"), "$ontext\nno matching offtext\n");
    assert!(tokens.is_empty());
    assert_eq!(diags.len(), 1);
    assert_eq!(diags[0].code, "L000");
    assert_eq!(diags[0].severity, Severity::Error);
    assert_eq!(diags[0].message, "Unterminated $ontext block (no matching $offtext found)");
    assert_eq!(diags[0].loc.line, 2);
    assert_eq!(diags[0].loc.col, 1);
}

#[test]
fn include_paths_skip_references() {
    let text = "$include a.gms\n$include %dir%/b.gms\nx\n$batinclude c.gms 1 2\n";
    let tokens = tokenize_str(PathBuf::from("t.gms"), text).unwrap();
    let paths = include_paths(&tokens);
    assert_eq!(paths, vec!["a.gms".to_string()]);
}

#[test]
fn locations_and_diagnostics_are_written_out() {
    let loc = SourceLocation::new(PathBuf::from("dir/model.gms"), 12, 3);
    assert_eq!(loc.to_string(), "dir/model.gms:12:3");
    let zero = SourceLocation::new(PathBuf::from("x.gms"), 0, 4294967295);
    assert_eq!(zero.to_string(), "x.gms:0:4294967295");
    let d = Diagnostic::new("D010", "bad condition", loc, Severity::Warning);
    assert_eq!(d.to_string(), "warning [D010] dir/model.gms:12:3: bad condition");
    assert_eq!(Severity::Hint.label(), "hint");
}

#[test]
fn lexer_error_is_written_out() {
    let err = tokenize_str(PathBuf::from("m.gms"), "$ontext\nx\n").unwrap_err();
    assert_eq!(
        err.to_string(),
        "m.gms:2:1: Unterminated $ontext block (no matching $offtext found)"
    );
}
