use jordan_calculus::{parse, Expr};

fn var(name: &str) -> Expr {
    Expr::Var(name.to_string())
}

fn abs(param: &str, body: Expr) -> Expr {
    Expr::Abs { param: param.to_string(), body: Box::new(body) }
}

fn app(a: Expr, b: Expr) -> Expr {
    Expr::App(Box::new(a), Box::new(b))
}

#[test]
fn parses_identity() {
    assert_eq!(parse("Jアッア").unwrap(), Expr::Abs { param: "ア".into(), body: Box::new(Expr::Var("ア".into())) });
}

#[test]
fn parses_application_and_parens() {
    assert_eq!(parse("「Jアッア」足すイ").unwrap(), Expr::App(Box::new(Expr::Abs { param: "ア".into(), body: Box::new(Expr::Var("ア".into())) }), Box::new(Expr::Var("イ".into()))));
}

#[test]
fn application_groups_to_the_left() {
    assert_eq!(parse("ア足すイ足すウ").unwrap(), app(app(var("ア"), var("イ")), var("ウ")));
}

#[test]
fn binder_body_reaches_to_the_right() {
    assert_eq!(parse("Jアッア足すイ").unwrap(), abs("ア", app(var("ア"), var("イ"))));
}

#[test]
fn multi_character_names_and_whitespace() {
    assert_eq!(parse("  Jアイ ッ\n アイ 足す\tクミ ").unwrap(), abs("アイ", app(var("アイ"), var("クミ"))));
}

#[test]
fn small_tsu_ends_a_name() {
    assert_eq!(parse("Jアッア").unwrap(), abs("ア", var("ア")));
    assert_eq!(parse("Jアイッイ").unwrap(), abs("アイ", var("イ")));
}

#[test]
fn unexpected_character_is_reported() {
    assert_eq!(parse("Jアッa").unwrap_err(), "unexpected character 'a' at character 3");
    assert_eq!(parse("'").unwrap_err(), "unexpected character '\\'' at character 0");
}

#[test]
fn trailing_token_is_reported() {
    assert_eq!(parse("ア」").unwrap_err(), "unexpected token RParen at token 1");
    assert_eq!(parse("「ア」イ").unwrap_err(), "unexpected token Var(\"イ\") at token 3");
}

#[test]
fn missing_close_is_reported() {
    assert_eq!(parse("「ア").unwrap_err(), "expected closing 」");
    assert_eq!(parse("「ア ッ").unwrap_err(), "expected closing 」");
}

#[test]
fn missing_expression_is_reported() {
    assert_eq!(parse("").unwrap_err(), "expected expression at token 0, got None");
    assert_eq!(parse("ア足す」").unwrap_err(), "expected expression at token 2, got Some(RParen)");
    assert_eq!(parse("足す").unwrap_err(), "expected expression at token 0, got Some(Plus)");
}

#[test]
fn missing_binder_parts_are_reported() {
    assert_eq!(parse("Jッア").unwrap_err(), "expected Katakana variable after J, got Some(Dot)");
    assert_eq!(parse("J").unwrap_err(), "expected Katakana variable after J, got None");
    assert_eq!(parse("Jア ア").unwrap_err(), "expected Dot at token 2");
}

#[test]
fn plus_needs_both_characters() {
    assert_eq!(parse("ア足イ").unwrap_err(), "unexpected character '足' at character 1");
}

#[test]
fn decimal_positions_in_messages() {
    let mut src = String::new();
    for _ in 0..12 {
        src.push_str("ア ");
    }
    src.push('x');
    assert_eq!(parse(&src).unwrap_err(), "unexpected character 'x' at character 24");
}

#[test]
fn clone_keeps_the_expression() {
    let e = parse("「JアッJイッア」足すウ").unwrap();
    assert_eq!(e.clone(), e);
}

#[test]
fn fully_bracketed_text_parses_back() {
    let e = abs("ア", app(abs("イ", var("イ")), var("ア")));
    assert_eq!(parse("「Jアッ「「Jイッイ」」足す「ア」」"), Ok(e));
}

#[test]
fn inserted_whitespace_only_separates() {
    assert_eq!(parse("Jアッ \n\tア足す イ"), parse("Jアッア足すイ"));
    assert_eq!(parse("「ア」 足す 「イ」"), parse("「ア」足す「イ」"));
    assert!(parse("ア 足 す").is_err());
}

#[test]
fn first_rejected_character_is_named() {
    assert_eq!(parse("アイ xyz").unwrap_err(), "unexpected character 'x' at character 3");
    assert_eq!(parse("足イ").unwrap_err(), "unexpected character '足' at character 0");
}
