use jordan_calculus::program::{definition_in, expand_program, program_imports};
use jordan_calculus::{parse, Expr};

#[test]
fn definition_expands_as_documented() {
    let src = "上げる アイデンティティ は Jアッア\nアイデンティティ";
    assert_eq!(expand_program(src, &vec![]), "「Jアイデンティティッアイデンティティ」足す「Jアッア」");
}

#[test]
fn comments_and_blank_lines_are_dropped() {
    let src = "え this whole line is ignored\n\n   え indented comment\nJアッア\n";
    assert_eq!(expand_program(src, &vec![]), "Jアッア");
    assert!(parse(&expand_program(src, &vec![])).is_ok());
}

#[test]
fn later_definitions_see_earlier_ones() {
    let src = "上げる クミ は Jアッア\n上げる ステプ は 「クミ」足す「クミ」\nステプ";
    let expanded = expand_program(src, &vec![]);
    assert_eq!(expanded, "「Jクミッ「Jステプッステプ」足す「「クミ」足す「クミ」」」足す「Jアッア」");
    let e = parse(&expanded).unwrap();
    match e {
        Expr::App(f, _) => match *f {
            Expr::Abs { param, .. } => assert_eq!(param, "クミ"),
            _ => panic!("expected a binder"),
        },
        _ => panic!("expected an application"),
    }
}

#[test]
fn expression_lines_are_joined_by_line_feeds() {
    let src = "ア\n足す\nイ";
    assert_eq!(expand_program(src, &vec![]), "ア\n足す\nイ");
}

#[test]
fn imports_are_listed_and_expanded() {
    let src = "貰う タス は prelude.jc \nタス";
    let imports = program_imports(src);
    assert_eq!(imports, vec![("タス".to_string(), "prelude.jc".to_string())]);
    let prelude = "え prelude\n上げる タス は JムッJンッム\n上げる タス は JムッJンッン";
    let found = definition_in(prelude, &"タス".to_string()).unwrap();
    assert_eq!(found, "JムッJンッン");
    assert_eq!(expand_program(src, &vec![found]), "「Jタスッタス」足す「JムッJンッン」");
    assert_eq!(definition_in(prelude, &"ナイ".to_string()), None);
}

#[test]
fn malformed_definition_is_an_expression_line() {
    let src = "上げる ab は ア\nア";
    assert_eq!(expand_program(src, &vec![]), "上げる ab は ア\nア");
    assert!(parse(&expand_program(src, &vec![])).is_err());
}

fn variable(v: &str) -> Expr {
    Expr::Var(v.to_string())
}

fn function(p: &str, b: Expr) -> Expr {
    Expr::Abs { param: p.to_string(), body: Box::new(b) }
}

fn applied(a: Expr, b: Expr) -> Expr {
    Expr::App(Box::new(a), Box::new(b))
}

#[test]
fn expanded_program_parses_to_nested_bindings() {
    let src = "上げる ア は Jイッイ\nえ comment\n上げる ウ は ア\nウ 足す ア";
    let e = parse(&expand_program(src, &vec![])).unwrap();
    let inner = applied(function("ウ", applied(variable("ウ"), variable("ア"))), variable("ア"));
    let expected = applied(function("ア", inner), function("イ", variable("イ")));
    assert_eq!(e, expected);
}
