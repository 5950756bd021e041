use compiler::ast::Type::{Bool, Fn, Num, Tyvar};
use compiler::ast::{lower, Ast, Type, TypeEnv, TypeError};
use compiler::parser;
use compiler::typecheck::typecheck;

#[test]
fn test_atom_types() {
    let counter = &mut 1;
    assert_type_ok("1", Num, counter);
    assert_type_ok("false", Bool, counter);
    assert_type_ok("true", Bool, counter);
}

#[test]
fn test_if_else_types() {
    let counter = &mut 1;
    assert_type_ok("if true then 1 else 2", Num, counter);
    assert_type_ok("if 1 + 2 >= 3 then 1 else 2", Num, counter);
    assert_type_ok(
        "if true then (if true then 3 else 4) else (if true then 5 else 6)",
        Num,
        counter,
    );
    assert_type_err(
        "if true then 1 else true",
        TypeError::TypeMismatch {
            found: Bool,
            expected: Num,
        },
        counter,
    );
}

#[test]
fn test_let_in_types() {
    let counter = &mut 1;
    assert_type_ok("let x: num = 1 in x", Num, counter);
    assert_type_ok("let x = 1 in x", Num, counter);
    assert_type_ok("let x = 1 in true", Bool, counter);
    assert_type_ok("let x = 1 in 1 >= x", Bool, counter);
    assert_type_err(
        "let x: bool = 3 in false",
        TypeError::TypeMismatch {
            found: Bool,
            expected: Num,
        },
        counter,
    );
}

#[test]
fn test_monomorphic_fn_types() {
    let counter = &mut 1;
    assert_type_ok("fn x: num => 3", Fn(Box::new(Num), Box::new(Num)), counter);
    assert_type_ok("fn x: num => x", Fn(Box::new(Num), Box::new(Num)), counter);
    assert_type_err(
        "(fn x: num => 3) true",
        TypeError::TypeMismatch {
            found: Bool,
            expected: Num,
        },
        counter,
    );
}

#[test]
fn test_polymorphic_fn_types() {
    let counter = &mut 1;
    assert_type_ok(
        "fn x: 'a => 3",
        Fn(Box::new(Tyvar("a".to_string())), Box::new(Num)),
        counter,
    );
    assert_type_ok(
        "fn x: 'a -> 'b => 3",
        Fn(
            Box::new(Fn(
                Box::new(Tyvar("a".to_string())),
                Box::new(Tyvar("b".to_string())),
            )),
            Box::new(Num),
        ),
        counter,
    );
    assert_type_ok(
        "fn x => 3",
        Fn(Box::new(Tyvar("a".to_string())), Box::new(Num)),
        counter,
    );
    assert_type_ok("(fn x => 3) true", Num, counter);
    // Each program is checked on its own; the names expected for the next
    // one are those of the fresh variables 3 and 4.
    *counter = 3;
    assert_type_ok(
        "fn x => fn y => 0",
        Fn(
            Box::new(Tyvar("c".to_string())),
            Box::new(Fn(Box::new(Tyvar("d".to_string())), Box::new(Num))),
        ),
        counter,
    );
    assert_type_ok(
        "(fn x => fn y => 0) 5",
        Fn(Box::new(Tyvar("f".to_string())), Box::new(Num)),
        counter,
    );
}

#[test]
fn unbound_variable_is_reported() {
    let counter = &mut 1;
    assert_type_err("x", TypeError::UnboundVariable("x".to_string()), counter);
    assert_type_err("fn y => x", TypeError::UnboundVariable("x".to_string()), counter);
}

#[test]
fn arithmetic_and_comparison_types() {
    let counter = &mut 1;
    assert_type_ok("1 + 2 * 3 - 4 / 5", Num, counter);
    assert_type_ok("-3", Num, counter);
    assert_type_ok("1 < 2", Bool, counter);
    assert_type_ok("true = false", Bool, counter);
    assert_type_err(
        "1 + true",
        TypeError::TypeMismatch {
            found: Num,
            expected: Bool,
        },
        counter,
    );
}

#[test]
fn counter_advances_once_per_fresh_variable() {
    let counter = &mut 1;
    assert_type_ok("fn x => x", Fn(Box::new(Tyvar("a".to_string())), Box::new(Tyvar("a".to_string()))), counter);
    assert_eq!(*counter, 2);
    assert_type_ok("1", Num, counter);
    assert_eq!(*counter, 2);
}

#[test]
fn fresh_variables_of_one_program_differ() {
    let counter = &mut 1;
    assert_type_ok(
        "fn x => fn y => x",
        Fn(
            Box::new(Tyvar("a".to_string())),
            Box::new(Fn(Box::new(Tyvar("b".to_string())), Box::new(Tyvar("a".to_string())))),
        ),
        counter,
    );
}

fn assert_type_ok(src: &str, ty: Type, counter: &mut i32) {
    let res = parser::parse(src).unwrap();
    let ast = &mut Ast::new();
    let id = lower(ast, res);
    assert_eq!(typecheck(ast, id, &TypeEnv::new(), counter), Ok(ty), "{}", src);
}

fn assert_type_err(src: &str, err: TypeError, counter: &mut i32) {
    let res = parser::parse(src).unwrap();
    let ast = &mut Ast::new();
    let id = lower(ast, res);
    assert_eq!(typecheck(ast, id, &TypeEnv::new(), counter), Err(err), "{}", src)
}
