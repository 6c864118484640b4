use jordan_calculus::outline::{src_lex, TokKind};
use jordan_calculus::position::Pos;

fn describe(k: &TokKind) -> String {
    match k {
        TokKind::Var(v) => format!("Var({})", v),
        TokKind::Lambda => "Lambda".to_string(),
        TokKind::Dot => "Dot".to_string(),
        TokKind::Plus => "Plus".to_string(),
        TokKind::LParen => "LParen".to_string(),
        TokKind::RParen => "RParen".to_string(),
    }
}

#[test]
fn token_spans_follow_lines_and_columns() {
    let ts = src_lex("え note\nJアイッ\r\n 足す「ウ」").unwrap();
    let got: Vec<(String, Pos, Pos)> = ts.iter().map(|t| (describe(&t.kind), t.span.start, t.span.end)).collect();
    let p = |line: usize, character: usize| Pos { line, character };
    assert_eq!(
        got,
        vec![
            ("Lambda".to_string(), p(1, 0), p(1, 1)),
            ("Var(アイ)".to_string(), p(1, 1), p(1, 3)),
            ("Dot".to_string(), p(1, 3), p(1, 4)),
            ("Plus".to_string(), p(2, 1), p(2, 3)),
            ("LParen".to_string(), p(2, 3), p(2, 4)),
            ("Var(ウ)".to_string(), p(2, 4), p(2, 5)),
            ("RParen".to_string(), p(2, 5), p(2, 6)),
        ]
    );
}

#[test]
fn both_lexers_agree_without_comments() {
    let ts = src_lex("「Jアッア」足すイ").unwrap();
    let kinds: Vec<String> = ts.iter().map(|t| describe(&t.kind)).collect();
    assert_eq!(kinds, vec!["LParen", "Lambda", "Var(ア)", "Dot", "Var(ア)", "RParen", "Plus", "Var(イ)"]);
    assert!(jordan_calculus::parse("「Jアッア」足すイ").is_ok());
    assert!(src_lex("アx").is_err());
    assert!(jordan_calculus::parse("アx").is_err());
}
