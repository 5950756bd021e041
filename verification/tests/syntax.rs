use compiler::ast::{lower, Ast, BinOp, Expr, PExpr, Spanned, Type, Value, CpsAst, CExpr};
use compiler::codegen::{gen_binop, gen_cexpr, gen_program, gen_value};
use compiler::cps::expr_to_cps;
use compiler::lexer::{lexer, ParseError, Token};
use compiler::parser::parse;
use compiler::decl::parse_decl;
use compiler::ast::Decl;

fn kinds(src: &str) -> Vec<String> {
    lexer(src).unwrap().iter().map(|t| t.inner.to_text()).collect()
}

#[test]
fn lexer_tokens_and_positions() {
    let toks = lexer("let x1 = 10.5 in x1 >= 3").unwrap();
    let spans: Vec<(usize, usize)> = toks.iter().map(|t| t.span).collect();
    assert_eq!(spans, vec![(0, 3), (4, 6), (7, 8), (9, 13), (14, 16), (17, 19), (20, 22), (23, 24)]);
    assert!(matches!(toks[0].inner, Token::Let));
    assert!(matches!(&toks[1].inner, Token::Ident(x) if x == "x1"));
    assert!(matches!(&toks[3].inner, Token::Num(x) if x == "10.5"));
    assert!(matches!(toks[4].inner, Token::In));
    assert!(matches!(toks[6].inner, Token::Geq));
}

#[test]
fn lexer_prefers_two_character_symbols() {
    assert_eq!(kinds("=> -> != >= <= = > < - '"), vec!["=>", "->", "!=", ">=", "!=", "=", ">", "<", "-", "'"]);
    assert!(matches!(lexer("<=").unwrap()[0].inner, Token::Leq));
}

#[test]
fn lexer_keywords_and_numbers() {
    assert_eq!(
        kinds("fn if then else true false match with letx 007 1.5"),
        vec!["fn", "if", "then", "else", "true", "false", "match", "with", "letx", "0", "0", "7", "1.5"]
    );
}

#[test]
fn lexer_rejects_unknown_characters() {
    let e = lexer("1 + $").unwrap_err();
    assert_eq!(e.span, (4, 5));
    assert_eq!(e.found, Some("$".to_string()));
    assert_eq!(e.message(), "found '$' at 4..5");
    assert_eq!(lexer("1.x").unwrap_err().span, (1, 2));
    assert!(lexer("").unwrap().is_empty());
    assert!(lexer("  \n\t ").unwrap().is_empty());
}

#[test]
fn parse_error_messages() {
    let e = ParseError { span: (3, 7), found: None };
    assert_eq!(e.message(), "found end of input at 3..7");
    let e = ParseError { span: (12, 13), found: Some("in".to_string()) };
    assert_eq!(e.message(), "found 'in' at 12..13");
}

fn shape(p: &Spanned<PExpr>) -> String {
    match &p.inner {
        PExpr::Var(x) => x.clone(),
        PExpr::Num(n) => n.clone(),
        PExpr::Bool(b) => b.to_string(),
        PExpr::Unit => "()".to_string(),
        PExpr::If(a, b, c) => format!("(if {} {} {})", shape(a), shape(b), shape(c)),
        PExpr::LetIn(x, _, a, b) => format!("(let {} {} {})", x.inner, shape(a), shape(b)),
        PExpr::Fn(x, _, a) => format!("(fn {} {})", x.inner, shape(a)),
        PExpr::App(a, b) => format!("(app {} {})", shape(a), shape(b)),
        PExpr::Sequence(a, b) => format!("(seq {} {})", shape(a), shape(b)),
        PExpr::Neg(a) => format!("(neg {})", shape(a)),
        PExpr::BinOp(op, a, b) => format!("({:?} {} {})", op.inner, shape(a), shape(b)),
    }
}

fn parse_shape(src: &str) -> String {
    shape(&parse(src).unwrap())
}

#[test]
fn precedence_and_associativity() {
    assert_eq!(parse_shape("1 + 2 * 3"), "(Plus 1 (Times 2 3))");
    assert_eq!(parse_shape("1 - 2 - 3"), "(Minus (Minus 1 2) 3)");
    assert_eq!(parse_shape("1 + 2 >= 3"), "(Geq (Plus 1 2) 3)");
    assert_eq!(parse_shape("f x y"), "(app (app f x) y)");
    assert_eq!(parse_shape("f x + 1"), "(Plus (app f x) 1)");
    assert_eq!(parse_shape("-1 + 2"), "(Plus (neg 1) 2)");
    assert_eq!(parse_shape("-2 * 3"), "(neg (Times 2 3))");
    assert_eq!(parse_shape("1; 2; 3"), "(seq (seq 1 2) 3)");
    assert_eq!(parse_shape("1 = 2; 3"), "(seq (Eq 1 2) 3)");
}

#[test]
fn binding_forms() {
    assert_eq!(parse_shape("let x = 1 in x + 1"), "(let x 1 (Plus x 1))");
    assert_eq!(parse_shape("fn x => fn y => x y"), "(fn x (fn y (app x y)))");
    assert_eq!(parse_shape("if a then b else c d"), "(if a b (app c d))");
    assert_eq!(parse_shape("(fn x => x) 3"), "(app (fn x x) 3)");
}

#[test]
fn annotations() {
    let p = parse("fn x: int -> 'a -> bool => x").unwrap();
    match p.inner {
        PExpr::Fn(x, Some(t), _) => {
            assert_eq!(x.inner, "x");
            assert_eq!(x.span, (3, 4));
            assert_eq!(
                t,
                Type::Fn(
                    Box::new(Type::Fn(Box::new(Type::Num), Box::new(Type::Tyvar("a".to_string())))),
                    Box::new(Type::Bool)
                )
            );
        }
        _ => panic!("not a function"),
    }
    let p = parse("let u: (unit) = x in u").unwrap();
    match p.inner {
        PExpr::LetIn(_, Some(t), _, _) => assert_eq!(t, Type::Unit),
        _ => panic!("not a let"),
    }
}

#[test]
fn spans_of_expressions() {
    let p = parse("f (1 + 2)").unwrap();
    assert_eq!(p.span, (0, 9));
    match p.inner {
        PExpr::App(f, a) => {
            assert_eq!(f.span, (0, 1));
            assert_eq!(a.span, (3, 8));
        }
        _ => panic!("not an application"),
    }
}

#[test]
fn unreadable_programs() {
    assert!(parse("").is_err());
    assert!(parse("let = 1 in 2").is_err());
    assert!(parse("if 1 then 2").is_err());
    assert!(parse("fn => 1").is_err());
    assert!(parse("(1 + 2").is_err());
    assert!(parse("fn x: 1 => x").is_err());
    let es = parse("let 5").unwrap_err();
    assert_eq!(es.len(), 1);
    assert_eq!(es[0].span, (4, 5));
    assert_eq!(es[0].found, Some("5".to_string()));
}

#[test]
fn lowering_keeps_the_tree() {
    let mut ast = Ast::new();
    let id = lower(&mut ast, parse("if x then 1 else -y").unwrap());
    assert_eq!(id, 4);
    assert_eq!(ast.exprs.len(), 5);
    assert_eq!(ast.spans[4], (0, 19));
    assert!(matches!(&ast.exprs[0], Expr::Var(x) if x == "x"));
    assert!(matches!(&ast.exprs[1], Expr::Num(n) if n == "1"));
    assert!(matches!(&ast.exprs[2], Expr::Var(y) if y == "y"));
    assert!(matches!(ast.exprs[3], Expr::Neg(2)));
    assert!(matches!(ast.exprs[4], Expr::If(0, 1, 3)));
    let id2 = lower(&mut ast, parse("z").unwrap());
    assert_eq!(id2, 5);
    assert!(matches!(ast.exprs[4], Expr::If(0, 1, 3)));
}

#[test]
fn javascript_operators() {
    assert_eq!(gen_binop(BinOp::Plus), "+");
    assert_eq!(gen_binop(BinOp::Minus), "-");
    assert_eq!(gen_binop(BinOp::Times), "*");
    assert_eq!(gen_binop(BinOp::Div), "/");
    assert_eq!(gen_binop(BinOp::Eq), "===");
    assert_eq!(gen_binop(BinOp::Neq), "!==");
    assert_eq!(gen_binop(BinOp::Geq), ">=");
    assert_eq!(gen_binop(BinOp::Gt), ">");
    assert_eq!(gen_binop(BinOp::Leq), "<=");
    assert_eq!(gen_binop(BinOp::Lt), "<");
}

#[test]
fn javascript_of_values_and_calls() {
    let mut c = CpsAst::new();
    let f = c.push_val(Value::Var("f".to_string()), (0, 0));
    let n = c.push_val(Value::Num("42".to_string()), (0, 0));
    let s = c.push_val(Value::String("hi".to_string()), (0, 0));
    let l = c.push_val(Value::Label("L".to_string()), (0, 0));
    assert_eq!(gen_value(&c, f), "f");
    assert_eq!(gen_value(&c, n), "42");
    assert_eq!(gen_value(&c, s), "\"hi\"");
    assert_eq!(gen_value(&c, l), "L");
    let call = c.push(CExpr::App(f, vec![n, s]), (0, 0));
    assert_eq!(gen_cexpr(&c, call), "f(42, \"hi\")");
    let x = c.push_val(Value::Var("x".to_string()), (0, 0));
    let prim = c.push(CExpr::PrimOp(BinOp::Times, vec![n, n], vec![x], vec![call]), (0, 0));
    assert_eq!(gen_cexpr(&c, prim), "let x = 42 * 42\nf(42, \"hi\");");
    assert_eq!(gen_program(&c, call), "\"use strict\";\nf(42, \"hi\")");
}

#[test]
fn token_texts_are_the_source() {
    let src = "let f: 'a -> num = fn x => (x + 10.25) * 3 >= 2; f != g / h";
    let chars: Vec<char> = src.chars().collect();
    for t in lexer(src).unwrap() {
        let piece: String = chars[t.span.0..t.span.1].iter().collect();
        assert_eq!(t.inner.to_text(), piece);
    }
    let le = lexer("a <= b").unwrap();
    assert_eq!(le[1].inner.to_text(), "!=");
}

#[test]
fn cps_positions_come_from_the_source() {
    let src = "if x then 1 else 2";
    let mut ast = Ast::new();
    let id = lower(&mut ast, parse(src).unwrap());
    let mut c = CpsAst::new();
    let k = c.push_val(Value::Var("console.log".to_string()), (0, 0));
    let mut n: u64 = 0;
    let r = expr_to_cps(&ast, id, &mut c, k, &mut n);
    assert_eq!(n, 2);
    assert_eq!(c.spans[r], (0, 18));
    for s in c.spans.iter() {
        assert!(ast.spans.contains(s));
    }
    for s in c.val_spans[1..].iter() {
        assert!(ast.spans.contains(s));
    }
    assert_eq!(gen_cexpr(&c, r), "function k0(k1) { if (k1 === 1) { console.log(1) } else { console.log(2) } }\nk0(x)");
}

#[test]
fn lowering_lays_out_children_first_from_the_left() {
    let mut ast = Ast::new();
    let id = lower(&mut ast, parse("1 + 2").unwrap());
    assert_eq!(id, 2);
    assert!(matches!(&ast.exprs[0], Expr::Num(n) if n == "1"));
    assert!(matches!(&ast.exprs[1], Expr::Num(n) if n == "2"));
    assert!(matches!(ast.exprs[2], Expr::BinOp(BinOp::Plus, 0, 1)));
    assert_eq!(ast.spans, vec![(0, 1), (4, 5), (0, 5)]);
}

#[test]
fn declarations() {
    let d = parse_decl("let f x y: int = x + y").unwrap();
    assert_eq!(d.span, (0, 22));
    match d.inner {
        Decl::Let(name, ty, params, body) => {
            assert_eq!(name.inner, "f");
            assert_eq!(name.span, (4, 5));
            assert!(ty.is_none());
            assert_eq!(params.len(), 2);
            assert_eq!(params[0].0.inner, "x");
            assert!(params[0].1.is_none());
            assert_eq!(params[1].0.inner, "y");
            assert_eq!(params[1].1, Some(Type::Num));
            assert_eq!(shape(&body), "(Plus x y)");
        }
        _ => panic!("not a definition"),
    }
    let d = parse_decl("let x: bool = true").unwrap();
    match d.inner {
        Decl::Let(_, ty, params, body) => {
            assert_eq!(ty, Some(Type::Bool));
            assert!(params.is_empty());
            assert_eq!(shape(&body), "true");
        }
        _ => panic!("not a definition"),
    }
    let d = parse_decl("1 + 2").unwrap();
    assert_eq!(d.span, (0, 5));
    assert!(matches!(d.inner, Decl::Expr(_)));
}

#[test]
fn declaration_errors() {
    let es = parse_decl("let x = 1 in x").unwrap_err();
    assert_eq!(es.len(), 1);
    assert_eq!(es[0].span, (10, 12));
    assert_eq!(es[0].found, Some("in".to_string()));
    let es = parse_decl("let 5").unwrap_err();
    assert_eq!(es[0].span, (4, 5));
    let es = parse_decl("let f x =").unwrap_err();
    assert_eq!(es[0].span, (9, 9));
    assert_eq!(es[0].found, None);
    let es = parse_decl("let f $").unwrap_err();
    assert_eq!(es[0].span, (6, 7));
}

#[test]
fn conversion_into_an_arena_with_other_nodes() {
    let mut ast = Ast::new();
    let id = lower(&mut ast, parse("if x then 1 else 2").unwrap());
    let mut c = CpsAst::new();
    let n = c.push_val(Value::Num("7".to_string()), (0, 0));
    let other = c.push(CExpr::App(n, vec![]), (0, 0));
    c.push(CExpr::Fix(vec![(n, vec![n], other)], other), (0, 0));
    let k = c.push_val(Value::Var("console.log".to_string()), (0, 0));
    let mut counter: u64 = 0;
    let r = expr_to_cps(&ast, id, &mut c, k, &mut counter);
    assert_eq!(r, c.exprs.len() - 1);
    assert_eq!(gen_cexpr(&c, r), "function k0(k1) { if (k1 === 1) { console.log(1) } else { console.log(2) } }\nk0(x)");
}
