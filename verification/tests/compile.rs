use jordan_calculus::compile::{symbol_count, RUNTIME};
use jordan_calculus::{compile_wat, parse};

fn identity_module() -> String {
    let mut w = String::from("(module\n");
    w.push_str(RUNTIME);
    w.push_str("  (func $lambda_0 (param $env i32) (param $arg i32) (result i32)\n    (local $newenv i32)\n");
    w.push_str("    local.get $env\n    i32.const 1\n    local.get $arg\n    call $bind\n    local.set $newenv\n");
    w.push_str("    local.get $newenv\n    i32.const 1\n    call $lookup\n");
    w.push_str("  )\n\n");
    w.push_str("  (func $apply (param $f i32) (param $arg i32) (result i32)\n");
    w.push_str("    local.get $f\n    i32.const 8\n    i32.add\n    i32.load\n    i32.const 0\n    i32.eq\n    if\n      local.get $f\n      i32.const 4\n      i32.add\n      i32.load\n      local.get $arg\n      call $lambda_0\n      return\n    end\n");
    w.push_str("    local.get $f\n    i32.const 8\n    i32.add\n    i32.load\n    i32.const 1\n    i32.eq\n    if\n      local.get $arg\n      i32.const 1\n      i32.add\n      return\n    end\n");
    w.push_str("    unreachable)\n\n");
    w.push_str("  (func $main (export \"main\") (result i32)\n");
    w.push_str("  i32.const 0\n  i32.const 0\n  call $closure\n");
    w.push_str("  )\n\n");
    w.push_str("  (func (export \"main_as_i32\") (result i32)\n    call $main\n    i32.const 0\n    i32.const 1\n    call $closure\n    call $apply\n    i32.const 0\n    call $apply)\n");
    w.push(')');
    w
}

#[test]
fn compiles_identity_exactly() {
    let wat = compile_wat(&parse("Jアッア").unwrap());
    assert_eq!(wat, identity_module());
}

#[test]
fn runtime_and_exports_are_present() {
    let wat = compile_wat(&parse("ア").unwrap());
    assert!(wat.starts_with("(module\n  (memory (export \"memory\") 1)"));
    assert!(wat.contains("(func $main (export \"main\") (result i32)"));
    assert!(wat.contains("(func (export \"main_as_i32\") (result i32)"));
    assert!(wat.ends_with(")\n)"));
    assert!(!wat.contains("$lambda_0"));
}

#[test]
fn binders_are_numbered_in_preorder() {
    let wat = compile_wat(&parse("「JアッJイッア」足す「Jウッウ」").unwrap());
    assert!(wat.contains("  i32.const 0\n  i32.const 0\n  call $closure\n  i32.const 0\n  i32.const 2\n  call $closure\n  call $apply\n"));
    assert!(wat.contains("    local.get $newenv\n    i32.const 1\n    call $closure\n"));
    assert!(wat.contains("(func $lambda_2 "));
    assert!(wat.contains("call $lambda_2\n"));
    assert!(!wat.contains("$lambda_3 "));
    // the increment function takes the code number after the binders
    assert!(wat.contains("    i32.const 3\n    i32.eq\n    if\n      local.get $arg\n"));
}

#[test]
fn variables_are_numbered_by_first_occurrence() {
    let e = parse("Jイッ「ア足すイ」足すウ足すア").unwrap();
    assert_eq!(symbol_count(&e), 3);
    let wat = compile_wat(&e);
    // イ is 1, ア is 2, ウ is 3
    assert!(wat.contains("    local.get $env\n    i32.const 1\n    local.get $arg\n    call $bind\n"));
    assert!(wat.contains("    local.get $newenv\n    i32.const 2\n    call $lookup\n    local.get $newenv\n    i32.const 1\n    call $lookup\n    call $apply\n"));
    assert!(wat.contains("    local.get $newenv\n    i32.const 3\n    call $lookup\n"));
}

#[test]
fn the_same_name_gets_the_same_number() {
    let e = parse("Jアッ「Jアッア」足すア").unwrap();
    assert_eq!(symbol_count(&e), 1);
    let wat = compile_wat(&e);
    assert!(!wat.contains("i32.const 2\n    call $lookup"));
}

#[test]
fn free_variable_in_main_uses_the_empty_environment() {
    let wat = compile_wat(&parse("アイ").unwrap());
    assert!(wat.contains("  (func $main (export \"main\") (result i32)\n  i32.const 0\n  i32.const 1\n  call $lookup\n  )\n"));
}

#[test]
fn decimal_numbers_beyond_nine() {
    let mut src = String::new();
    for _ in 0..11 {
        src.push_str("「Jアッ");
    }
    src.push('ア');
    for _ in 0..11 {
        src.push('」');
    }
    let wat = compile_wat(&parse(&src).unwrap());
    assert!(wat.contains("(func $lambda_10 "));
    assert!(wat.contains("    i32.const 11\n    i32.eq\n    if\n      local.get $arg\n"));
}

#[test]
fn spelling_of_names_does_not_change_the_module() {
    let a = compile_wat(&parse("「JアッJイッア」足す「Jウッウ」").unwrap());
    let b = compile_wat(&parse("「JカッJキッカ」足す「Jクック」").unwrap());
    assert_eq!(a, b);
}

#[test]
fn main_has_one_instruction_per_node() {
    let wat = compile_wat(&parse("ア足すイ足す「Jエッエ」").unwrap());
    let count = |l: &str| wat.lines().filter(|x| *x == l).count();
    assert_eq!(count("  call $apply"), 2);
    assert_eq!(count("  call $lookup"), 2);
    assert_eq!(count("  call $closure"), 1);
}
