use compiler::ast::Type;
use compiler::ast::Type::{Bool, Fn, Num, Tyvar};
use compiler::typecheck::{
    apply_subst, fvs, gen_tyvar, idx_to_tvar, is_comparison_op, type_subst, tyvars_in, tyvars_in_ty, unify,
};
use compiler::ast::{lower, Ast, TypeEnv};
use compiler::parser::parse;
use compiler::ast::BinOp;
use im::HashSet;

#[test]
fn idx_to_var_tests() {
    assert_eq!(idx_to_tvar(1), "a");
    assert_eq!(idx_to_tvar(5), "e");
    assert_eq!(idx_to_tvar(26), "z");
    assert_eq!(idx_to_tvar(27), "aa");
    assert_eq!(idx_to_tvar(200), "gr");
}

#[test]
fn idx_to_tvar_edges() {
    assert_eq!(idx_to_tvar(0), "a");
    assert_eq!(idx_to_tvar(52), "az");
    assert_eq!(idx_to_tvar(53), "ba");
    assert_eq!(idx_to_tvar(702), "zz");
    assert_eq!(idx_to_tvar(703), "aaa");
    assert_eq!(idx_to_tvar(-1), "");
}

#[test]
fn fresh_type_variables_are_distinct() {
    let counter = &mut 1;
    let a = gen_tyvar(counter);
    let b = gen_tyvar(counter);
    assert_eq!(a, Tyvar("a".to_string()));
    assert_eq!(b, Tyvar("b".to_string()));
    assert_ne!(a, b);
    assert_eq!(*counter, 3);
}

#[test]
fn test_unify_concrete() {
    let constraints = HashSet::new().update((Num, Num));
    let unification = unify(&constraints).unwrap();
    assert!(unification.is_empty());
}

#[test]
fn test_unify_concrete_fail() {
    let constraints = HashSet::new().update((Num, Bool));
    let unification = unify(&constraints);
    assert!(unification.is_err())
}

#[test]
fn unify_reports_the_clashing_pair() {
    let constraints = HashSet::new().update((Num, Bool));
    assert_eq!(unify(&constraints), Err((Num, Bool)));
}

#[test]
fn unify_binds_variables() {
    let a = Tyvar("a".to_string());
    let b = Tyvar("b".to_string());
    let fa = Fn(Box::new(a.clone()), Box::new(Bool));
    let fb = Fn(Box::new(Num), Box::new(b.clone()));
    let constraints: HashSet<(Type, Type)> = HashSet::new().update((fa.clone(), fb.clone()));
    let bs = unify(&constraints).unwrap();
    assert_eq!(apply_subst(&bs, &a), Num);
    assert_eq!(apply_subst(&bs, &b), Bool);
    assert_eq!(apply_subst(&bs, &fa), apply_subst(&bs, &fb));
}

#[test]
fn unify_rejects_occurs_check() {
    let a = Tyvar("a".to_string());
    let fa = Fn(Box::new(a.clone()), Box::new(Num));
    let constraints: HashSet<(Type, Type)> = HashSet::new().update((a, fa));
    assert!(unify(&constraints).is_err());
}

#[test]
fn unify_of_nothing_is_empty() {
    let constraints: HashSet<(Type, Type)> = HashSet::new();
    assert_eq!(unify(&constraints), Ok(vec![]));
}

#[test]
fn comparison_operators() {
    assert!(is_comparison_op(&BinOp::Eq));
    assert!(is_comparison_op(&BinOp::Neq));
    assert!(is_comparison_op(&BinOp::Geq));
    assert!(is_comparison_op(&BinOp::Gt));
    assert!(is_comparison_op(&BinOp::Leq));
    assert!(is_comparison_op(&BinOp::Lt));
    assert!(!is_comparison_op(&BinOp::Plus));
    assert!(!is_comparison_op(&BinOp::Minus));
    assert!(!is_comparison_op(&BinOp::Times));
    assert!(!is_comparison_op(&BinOp::Div));
}

#[test]
fn environment_reads_what_was_bound() {
    let env = TypeEnv::new();
    assert_eq!(env.get_env("x".to_string()), None);
    let env2 = env.upd_env("x".to_string(), Num);
    let env3 = env2.upd_env("y".to_string(), Bool);
    assert_eq!(env3.get_env("x".to_string()), Some(Num));
    assert_eq!(env3.get_env("y".to_string()), Some(Bool));
    assert_eq!(env2.get_env("y".to_string()), None);
    let env4 = env3.upd_env("x".to_string(), Bool);
    assert_eq!(env4.get_env("x".to_string()), Some(Bool));
    assert_eq!(env3.get_env("x".to_string()), Some(Num));
    assert_eq!(env4.get_env_map().len(), 2);
}

#[test]
fn substitution_by_a_map() {
    let a = Tyvar("a".to_string());
    let b = Tyvar("b".to_string());
    let t = Fn(Box::new(a.clone()), Box::new(Fn(Box::new(b.clone()), Box::new(a.clone()))));
    let empty: im::HashMap<String, Type> = im::HashMap::new();
    assert_eq!(type_subst(&t, &empty), t);
    assert_eq!(apply_subst(&vec![], &t), t);
    let m = im::HashMap::new().update("a".to_string(), Num);
    assert_eq!(
        type_subst(&t, &m),
        Fn(Box::new(Num), Box::new(Fn(Box::new(b.clone()), Box::new(Num))))
    );
}

#[test]
fn type_variables_of_types_and_expressions() {
    let t = Fn(Box::new(Tyvar("a".to_string())), Box::new(Fn(Box::new(Num), Box::new(Tyvar("b".to_string())))));
    let vs = tyvars_in_ty(&t);
    assert_eq!(vs.len(), 2);
    assert!(vs.contains("a") && vs.contains("b"));
    let mut ast = Ast::new();
    let id = lower(&mut ast, parse("fn x: 'c => (fn y: 'd => z) x").unwrap());
    let env = TypeEnv::new().upd_env("z".to_string(), Tyvar("e".to_string()));
    let tv = tyvars_in(&ast, id, &env);
    assert_eq!(tv.len(), 3);
    assert!(tv.contains("c") && tv.contains("d") && tv.contains("e"));
    let free = fvs(&ast, id, HashSet::new());
    assert_eq!(free.len(), 1);
    assert!(free.contains("z"));
}

#[test]
fn unify_reports_the_split_pair_in_its_orientation() {
    let a = Tyvar("a".to_string());
    let lhs = Fn(Box::new(Num), Box::new(Num));
    let rhs = Fn(Box::new(Bool), Box::new(a));
    let constraints: HashSet<(Type, Type)> = HashSet::new().update((lhs, rhs));
    assert_eq!(unify(&constraints), Err((Num, Bool)));
}
