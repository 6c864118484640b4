use jordan_calculus::definition::definition_span;
use jordan_calculus::position::Pos;

#[test]
fn finds_nearest_binder() {
    let text = "Jアッ「Jイッア」";
    let loc = definition_span(text, Pos { line: 0, character: 7 }).unwrap();
    assert_eq!(loc.start.character, 1);
    assert_eq!(loc.end.character, 2);
}

#[test]
fn finds_top_level_definition_macro() {
    let text = "上げる アイデンティティ は Jアッア\nアイデンティティ";
    let loc = definition_span(text, Pos { line: 1, character: 0 }).unwrap();
    assert_eq!(loc.start.line, 0);
    assert_eq!(loc.start.character, 4);
    assert_eq!(loc.end.character, 12);
}

#[test]
fn finds_definition_from_inside_multi_character_variable() {
    let text = "上げる クミ は Jアッア\nクミ";
    let loc = definition_span(text, Pos { line: 1, character: 1 }).unwrap();
    assert_eq!(loc.start.line, 0);
    assert_eq!(loc.start.character, 4);
    assert_eq!(loc.end.character, 6);
}

#[test]
fn finds_top_level_definition_from_definition_body() {
    let text = "上げる クミ は Jアッア\n上げる ステプ は 「クミ」足す「クミ」\nステプ";
    let loc = definition_span(text, Pos { line: 1, character: 13 }).unwrap();
    assert_eq!(loc.start.line, 0);
    assert_eq!(loc.start.character, 4);
    assert_eq!(loc.end.character, 6);
}

use jordan_calculus::definition::{lsp_source_body_and_top_defs, top_level_definition_name, variable_at_position};

#[test]
fn inner_binder_shadows_outer() {
    let text = "Jアッ「Jアッア」";
    let loc = definition_span(text, Pos { line: 0, character: 7 }).unwrap();
    assert_eq!(loc.start.character, 5);
    assert_eq!(loc.end.character, 6);
}

#[test]
fn on_a_binder_its_own_name_is_the_definition() {
    let loc = definition_span("Jアイッアイ", Pos { line: 0, character: 1 }).unwrap();
    assert_eq!((loc.start.character, loc.end.character), (1, 3));
}

#[test]
fn free_variable_has_no_definition() {
    assert!(definition_span("Jアッイ", Pos { line: 0, character: 3 }).is_none());
    assert!(definition_span("Jアッイ", Pos { line: 5, character: 0 }).is_none());
}

#[test]
fn comment_lines_are_skipped() {
    let text = "え note\nJアッ\nア";
    let loc = definition_span(text, Pos { line: 2, character: 0 }).unwrap();
    assert_eq!((loc.start.line, loc.start.character, loc.end.character), (1, 1, 2));
}

#[test]
fn top_level_definition_lines() {
    let (name, sp) = top_level_definition_name(3, "  上げる  クミ  は Jアッア").unwrap();
    assert_eq!(name, "クミ");
    assert_eq!((sp.start.line, sp.start.character, sp.end.character), (3, 7, 9));
    assert!(top_level_definition_name(0, "上げる は ア").is_none());
    assert!(top_level_definition_name(0, "上げる aB は ア").is_none());
    assert!(top_level_definition_name(0, "Jアッア").is_none());
    assert!(top_level_definition_name(0, "上げる クミ").is_none());
}

#[test]
fn body_and_definitions() {
    let (body, defs) = lsp_source_body_and_top_defs("上げる クミ は Jアッア\nクミ\r\nイ");
    assert_eq!(body, "\nクミ\nイ");
    assert_eq!(defs.len(), 1);
    assert_eq!(defs[0].0, "クミ");
}

#[test]
fn variable_under_the_cursor() {
    assert_eq!(variable_at_position("ア\nJクミッ クミ", Pos { line: 1, character: 5 }).unwrap(), "クミ");
    assert_eq!(variable_at_position("ア\nJクミッ クミ", Pos { line: 1, character: 7 }).unwrap(), "クミ");
    assert!(variable_at_position("ア", Pos { line: 1, character: 0 }).is_none());
}

#[test]
fn enclosing_binder_shadows_top_level_definition() {
    let text = "上げる ア は イ\nJアッア";
    let loc = definition_span(text, Pos { line: 1, character: 3 }).unwrap();
    assert_eq!(loc.start.line, 1);
    assert_eq!(loc.start.character, 1);
    assert_eq!(loc.end.line, 1);
    assert_eq!(loc.end.character, 2);
}

#[test]
fn definition_line_needs_its_particle() {
    assert!(top_level_definition_name(0, "上げる クミ").is_none());
    assert!(top_level_definition_name(0, "上げる クミ は").is_some());
}

#[test]
fn variable_is_the_whole_run() {
    let text = "アイウ エ";
    assert_eq!(variable_at_position(text, Pos { line: 0, character: 2 }), Some("アイウ".to_string()));
    assert_eq!(variable_at_position(text, Pos { line: 0, character: 3 }), Some("アイウ".to_string()));
    assert_eq!(variable_at_position(text, Pos { line: 0, character: 5 }), Some("エ".to_string()));
    assert_eq!(variable_at_position("ア   イ", Pos { line: 0, character: 2 }), None);
}

#[test]
fn body_keeps_line_numbers() {
    let (body, _) = lsp_source_body_and_top_defs("ア\n上げる イ は ウ\nエ");
    let pieces: Vec<&str> = body.split('\n').collect();
    assert_eq!(pieces, vec!["ア", "", "エ"]);
}
