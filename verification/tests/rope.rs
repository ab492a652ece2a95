use gams_lsp::features::{LspPosition, LspRange};
use gams_lsp::rope::{apply_incremental_change, lsp_pos_to_char_idx, ContentChange};
use ropey::Rope;

fn range(sl: u32, sc: u32, el: u32, ec: u32) -> Option<LspRange> {
    Some(LspRange {
        start: LspPosition { line: sl, character: sc },
        end: LspPosition { line: el, character: ec },
    })
}

#[test]
fn incremental_change_full_replace() {
    let mut rope = Rope::from_str("hello world");
    let change = ContentChange { range: None, text: "goodbye".to_string() };
    apply_incremental_change(&mut rope, &change);
    assert_eq!(rope.to_string(), "goodbye");
}

#[test]
fn incremental_change_insert_at_start() {
    let mut rope = Rope::from_str("world");
    let change = ContentChange { range: range(0, 0, 0, 0), text: "hello ".to_string() };
    apply_incremental_change(&mut rope, &change);
    assert_eq!(rope.to_string(), "hello world");
}

#[test]
fn incremental_change_delete_range() {
    let mut rope = Rope::from_str("hello world");
    let change = ContentChange { range: range(0, 5, 0, 11), text: String::new() };
    apply_incremental_change(&mut rope, &change);
    assert_eq!(rope.to_string(), "hello");
}

#[test]
fn incremental_change_replace_word() {
    let mut rope = Rope::from_str("Sets i / 1*3 /;");
    // Replace "Sets" (chars 0-4) with "Parameter"
    let change = ContentChange { range: range(0, 0, 0, 4), text: "Parameter".to_string() };
    apply_incremental_change(&mut rope, &change);
    assert_eq!(rope.to_string(), "Parameter i / 1*3 /;");
}

#[test]
fn incremental_change_multiline() {
    let mut rope = Rope::from_str("line1\nline2\nline3\n");
    // Replace "line2" on line 1 with "updated"
    let change = ContentChange { range: range(1, 0, 1, 5), text: "updated".to_string() };
    apply_incremental_change(&mut rope, &change);
    assert_eq!(rope.to_string(), "line1\nupdated\nline3\n");
}

#[test]
fn position_past_the_end_is_clamped() {
    let rope = Rope::from_str("ab\ncd\n");
    // line 1 has "cd\n": character 10 is clamped to its end, after the break
    assert_eq!(lsp_pos_to_char_idx(&rope, LspPosition { line: 1, character: 10 }), 6);
    // line 7 does not exist: the last (empty) line is used
    assert_eq!(lsp_pos_to_char_idx(&rope, LspPosition { line: 7, character: 0 }), 6);
    assert_eq!(lsp_pos_to_char_idx(&rope, LspPosition { line: 0, character: 1 }), 1);
}

#[test]
fn crlf_is_one_line_break() {
    let rope = Rope::from_str("a\r\nb\rc");
    // lines: "a\r\n", "b\r", "c"
    assert_eq!(lsp_pos_to_char_idx(&rope, LspPosition { line: 1, character: 0 }), 3);
    assert_eq!(lsp_pos_to_char_idx(&rope, LspPosition { line: 2, character: 0 }), 5);
    assert_eq!(lsp_pos_to_char_idx(&rope, LspPosition { line: 0, character: 9 }), 3);
}

#[test]
fn unicode_separators_break_lines() {
    let rope = Rope::from_str("x\u{2028}y\u{85}z");
    assert_eq!(lsp_pos_to_char_idx(&rope, LspPosition { line: 1, character: 0 }), 2);
    assert_eq!(lsp_pos_to_char_idx(&rope, LspPosition { line: 2, character: 0 }), 4);
}

#[test]
fn change_in_an_empty_document() {
    let mut rope = Rope::from_str("");
    let change = ContentChange { range: range(3, 3, 4, 4), text: "x\n".to_string() };
    apply_incremental_change(&mut rope, &change);
    assert_eq!(rope.to_string(), "x\n");
}
