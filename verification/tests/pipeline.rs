use compiler::ast::Type;
use compiler::node::{compile, CompileError};
use compiler::wasm_glue::compile_to_js;

fn js_of(src: &str) -> String {
    match compile(src) {
        Ok((_, js)) => js,
        Err(e) => panic!("{:?}", e),
    }
}

fn type_of(src: &str) -> Type {
    match compile(src) {
        Ok((t, _)) => t,
        Err(e) => panic!("{:?}", e),
    }
}

// The programs below print, when run by node: 6, 15, 1, 2, 1, 3, 1, 0, 5, 5.

#[test]
fn addition_programs() {
    assert_eq!(
        js_of("1 + 2 + 3"),
        "\"use strict\";\n\
         function k0(k1) { function k2(k3) { let k4 = k1 + k3\nconsole.log(k4); }\nk2(3) }\n\
         function k5(k6) { function k7(k8) { let k9 = k6 + k8\nk0(k9); }\nk7(2) }\n\
         k5(1)"
    );
    assert_eq!(
        js_of("1 + 2 + 3 + 4 + 5"),
        "\"use strict\";\n\
         function k0(k1) { function k2(k3) { let k4 = k1 + k3\nconsole.log(k4); }\nk2(5) }\n\
         function k5(k6) { function k7(k8) { let k9 = k6 + k8\nk0(k9); }\nk7(4) }\n\
         function k10(k11) { function k12(k13) { let k14 = k11 + k13\nk5(k14); }\nk12(3) }\n\
         function k15(k16) { function k17(k18) { let k19 = k16 + k18\nk10(k19); }\nk17(2) }\n\
         k15(1)"
    );
    assert_eq!(type_of("1 + 2 + 3"), Type::Num);
}

#[test]
fn if_programs() {
    assert_eq!(
        js_of("if true then 1 else 2"),
        "\"use strict\";\n\
         function k0(k1) { if (k1 === 1) { console.log(1) } else { console.log(2) } }\n\
         k0(1)"
    );
    assert_eq!(
        js_of("if false then 1 else 2"),
        "\"use strict\";\n\
         function k0(k1) { if (k1 === 1) { console.log(1) } else { console.log(2) } }\n\
         k0(0)"
    );
    assert_eq!(
        js_of("if 1 + 2 >= 3 then true else false"),
        "\"use strict\";\n\
         function k0(k1) { if (k1 === 1) { console.log(1) } else { console.log(0) } }\n\
         function k2(k3) { function k4(k5) { if (k3 >= k5) { k0(1) } else { k0(0) } }\nk4(3) }\n\
         function k6(k7) { function k8(k9) { let k10 = k7 + k9\nk2(k10); }\nk8(2) }\n\
         k6(1)"
    );
    assert_eq!(type_of("if 1 + 2 >= 3 then true else false"), Type::Bool);
}

#[test]
fn function_programs() {
    assert_eq!(
        js_of("(fn x: int => x) 3"),
        "\"use strict\";\n\
         function k0(k1) { function k2(k3) { k1(k3, console.log) }\nk2(3) }\n\
         function k4(x, k5) { k5(x) }\n\
         k0(k4)"
    );
    assert_eq!(
        js_of("(fn x: int => if x >= 0 then true else false) 6"),
        "\"use strict\";\n\
         function k0(k1) { function k2(k3) { k1(k3, console.log) }\nk2(6) }\n\
         function k4(x, k5) { function k6(k7) { if (k7 === 1) { k5(1) } else { k5(0) } }\n\
         function k8(k9) { function k10(k11) { if (k9 >= k11) { k6(1) } else { k6(0) } }\nk10(0) }\n\
         k8(x) }\n\
         k0(k4)"
    );
    assert_eq!(
        js_of("(fn x: int => if x >= 0 then true else false) (-4)"),
        "\"use strict\";\n\
         function k0(k1) { function k2(k3) { k1(k3, console.log) }\n\
         function k4(k5) { function k6(k7) { let k8 = k5 - k7\nk2(k8); }\nk6(4) }\n\
         k4(0) }\n\
         function k9(x, k10) { function k11(k12) { if (k12 === 1) { k10(1) } else { k10(0) } }\n\
         function k13(k14) { function k15(k16) { if (k14 >= k16) { k11(1) } else { k11(0) } }\nk15(0) }\n\
         k13(x) }\n\
         k0(k9)"
    );
}

#[test]
fn let_programs() {
    assert_eq!(
        js_of("let x: int = 5 in x"),
        "\"use strict\";\n\
         function k0(k1) { function k2(k3) { k1(k3, console.log) }\nk2(5) }\n\
         function k4(x, k5) { k5(x) }\n\
         k0(k4)"
    );
    assert_eq!(
        js_of("let f: int -> int = fn x: int => x + 1 in f 4"),
        "\"use strict\";\n\
         function k0(k1) { function k2(k3) { k1(k3, console.log) }\n\
         function k4(x, k5) { function k6(k7) { function k8(k9) { let k10 = k7 + k9\nk5(k10); }\nk8(1) }\nk6(x) }\n\
         k2(k4) }\n\
         function k11(f, k12) { function k13(k14) { function k15(k16) { k14(k16, k12) }\nk15(4) }\nk13(f) }\n\
         k0(k11)"
    );
    assert_eq!(type_of("let f: int -> int = fn x: int => x + 1 in f 4"), Type::Num);
}

#[test]
fn type_errors_are_reported() {
    match compile("if true then 1 else true") {
        Err(CompileError::Type(_)) => {}
        other => panic!("{:?}", other),
    }
    match compile("1; 2") {
        Err(CompileError::Type(_)) => {}
        other => panic!("{:?}", other),
    }
    match compile("y") {
        Err(CompileError::Type(_)) => {}
        other => panic!("{:?}", other),
    }
}

#[test]
fn parse_errors_are_reported() {
    match compile("1 +") {
        Err(CompileError::Parse(es)) => {
            assert_eq!(es.len(), 1);
            assert_eq!(es[0].span, (2, 3));
            assert_eq!(es[0].found, Some("+".to_string()));
        }
        other => panic!("{:?}", other),
    }
    match compile("let x = 1") {
        Err(CompileError::Parse(es)) => {
            assert_eq!(es.len(), 1);
            assert_eq!(es[0].span, (9, 9));
            assert_eq!(es[0].found, None);
        }
        other => panic!("{:?}", other),
    }
    match compile("1 # 2") {
        Err(CompileError::Parse(es)) => {
            assert_eq!(es.len(), 1);
            assert_eq!(es[0].span, (2, 3));
            assert_eq!(es[0].found, Some("#".to_string()));
        }
        other => panic!("{:?}", other),
    }
}

#[test]
fn compile_to_js_results() {
    let ok = compile_to_js("if true then 1 else 2".to_string());
    assert!(ok.errors.is_empty());
    assert_eq!(ok.js, js_of("if true then 1 else 2"));

    let ty = compile_to_js("if true then 1 else true".to_string());
    assert_eq!(ty.js, "false");
    assert_eq!(ty.errors, vec!["type error".to_string()]);

    let parse = compile_to_js("(1".to_string());
    assert_eq!(parse.js, "false");
    assert_eq!(parse.errors, vec!["found end of input at 2..2".to_string()]);

    let bad = compile_to_js("1 ) 2".to_string());
    assert_eq!(bad.js, "false");
    assert_eq!(bad.errors, vec!["found ')' at 2..3".to_string()]);
}
