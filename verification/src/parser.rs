//! Parsing: tokens to an expression tree.
//!
//! Expressions are read by precedence climbing.  From the loosest to the
//! tightest, the infix operators are `;`, the comparisons
//! (`= != >= > <= <`), `+ -`, `* /`, and application (juxtaposition), all
//! associating to the left; a prefix `-` binds tighter than `+` and looser
//! than `*`.  A `let`, `fn` or `if` extends as far to the right as it can.
//! Type annotations are `num` (also written `int`), `bool`, `unit`, `'a`,
//! parenthesised types and arrows `->`, which also associate to the left.
use vstd::prelude::*;
use crate::ast::{opt_model, pmodel, sp_term, BinOp, CodeLoc, PExpr, SPExpr, SType, Spanned, Term, Type};
use crate::lexer::{found_model, lex, lexer, tok_text, toks_model, ParseError, STok, Token};
use vstd::string::StrSliceExecFns;
use vstd::string::StringExecFns;

verus! {

/// A token with its position.
pub type TokSeq = Seq<(STok, (int, int))>;

/// The token at `i`.
pub open spec fn tk(ts: TokSeq, i: int) -> STok {
    ts[i].0
}

/// The position from the start of token `i` to the end of token `j - 1`.
pub open spec fn loc(ts: TokSeq, i: int, j: int) -> CodeLoc {
    (ts[i].1.0 as usize, ts[j - 1].1.1 as usize)
}

pub open spec fn sp<T>(x: T, l: CodeLoc) -> Spanned<T> {
    Spanned { inner: x, span: l }
}

/// A type annotation that starts at `i` with no arrow at its top: the type and
/// where it ends, or the position of the token that is wrong.
pub open spec fn p_tatom(ts: TokSeq, i: int) -> Result<(SType, int), int>
    decreases ts.len() - i, 0int,
{
    if !(0 <= i < ts.len()) {
        Err(i)
    } else {
        match tk(ts, i) {
            STok::Ident(x) => if x == "num"@ || x == "int"@ {
                Ok((SType::Num, i + 1))
            } else if x == "bool"@ {
                Ok((SType::Bool, i + 1))
            } else if x == "unit"@ {
                Ok((SType::Unit, i + 1))
            } else {
                Err(i)
            },
            STok::SingleQuote => if i + 1 < ts.len() && tk(ts, i + 1) is Ident {
                Ok((SType::Var(tk(ts, i + 1)->Ident_0), i + 2))
            } else {
                Err(i + 1)
            },
            STok::LParen => match p_type(ts, i + 1) {
                Ok((t, j)) => if i < j < ts.len() && tk(ts, j) is RParen {
                    Ok((t, j + 1))
                } else {
                    Err(j)
                },
                Err(e) => Err(e),
            },
            _ => Err(i),
        }
    }
}

/// A type annotation that starts at `i`.
pub open spec fn p_type(ts: TokSeq, i: int) -> Result<(SType, int), int>
    decreases ts.len() - i, 1int,
{
    match p_tatom(ts, i) {
        Ok((t, j)) => if i < j <= ts.len() {
            t_loop(ts, t, j)
        } else {
            Err(j)
        },
        Err(e) => Err(e),
    }
}

/// The arrows that follow the type `lhs`, which ends at `j`.
pub open spec fn t_loop(ts: TokSeq, lhs: SType, j: int) -> Result<(SType, int), int>
    decreases ts.len() - j, 2int,
{
    if 0 <= j < ts.len() && tk(ts, j) is ThinArrow {
        match p_tatom(ts, j + 1) {
            Ok((r, k)) => if j < k <= ts.len() {
                t_loop(ts, SType::Fn(Box::new(lhs), Box::new(r)), k)
            } else {
                Err(k)
            },
            Err(_) => Ok((lhs, j)),
        }
    } else {
        Ok((lhs, j))
    }
}

/// An optional annotation `: type` at `i`.
pub open spec fn p_annot(ts: TokSeq, i: int) -> Result<(Option<SType>, int), int> {
    if 0 <= i < ts.len() && tk(ts, i) is Colon {
        match p_type(ts, i + 1) {
            Ok((t, j)) => Ok((Some(t), j)),
            Err(e) => Err(e),
        }
    } else {
        Ok((None, i))
    }
}

/// The infix operator of a token and its binding power; `None` stands for
/// the sequence `;`.
pub open spec fn infix_of(t: STok) -> Option<(Option<BinOp>, int)> {
    match t {
        STok::Semicolon => Some((None, 0)),
        STok::Eq => Some((Some(BinOp::Eq), 2)),
        STok::Neq => Some((Some(BinOp::Neq), 2)),
        STok::Geq => Some((Some(BinOp::Geq), 2)),
        STok::Gt => Some((Some(BinOp::Gt), 2)),
        STok::Leq => Some((Some(BinOp::Leq), 2)),
        STok::Lt => Some((Some(BinOp::Lt), 2)),
        STok::Plus => Some((Some(BinOp::Plus), 4)),
        STok::Minus => Some((Some(BinOp::Minus), 4)),
        STok::Asterisk => Some((Some(BinOp::Times), 6)),
        STok::Slash => Some((Some(BinOp::Div), 6)),
        _ => None,
    }
}

/// The binding power of application.
pub open spec fn app_power() -> int {
    20
}

/// The binding power of the operand of a prefix `-`.
pub open spec fn neg_power() -> int {
    5
}

/// Whether a token can start an atom.
pub open spec fn starts_atom(t: STok) -> bool {
    match t {
        STok::Num(_) | STok::True | STok::False | STok::Ident(_) | STok::Let | STok::Fn
        | STok::If | STok::LParen => true,
        _ => false,
    }
}

/// The result of reading an expression: the expression and the position
/// after it, or the position of the token that is wrong.
pub type PRes = Result<(Spanned<SPExpr>, int), int>;

/// An expression that starts at `i` and holds only operators of binding
/// power at least `min`.
pub open spec fn p_expr(ts: TokSeq, i: int, min: int) -> PRes
    decreases ts.len() - i, 2int,
{
    if 0 <= i < ts.len() && tk(ts, i) is Minus {
        match p_expr(ts, i + 1, neg_power()) {
            Ok((e, j)) => if i < j <= ts.len() {
                p_loop(ts, i, sp(SPExpr::Neg(Box::new(e)), loc(ts, i, j)), j, min)
            } else {
                Err(j)
            },
            Err(e) => Err(e),
        }
    } else {
        match p_atom(ts, i) {
            Ok((a, j)) => if i < j <= ts.len() {
                p_loop(ts, i, a, j, min)
            } else {
                Err(j)
            },
            Err(e) => Err(e),
        }
    }
}

/// The infix operators that follow `lhs`, which starts at `i0` and ends at
/// `j`.  An operator whose right operand cannot be read is left unread.
pub open spec fn p_loop(ts: TokSeq, i0: int, lhs: Spanned<SPExpr>, j: int, min: int) -> PRes
    decreases ts.len() - j, 1int,
{
    if !(0 <= j < ts.len()) {
        Ok((lhs, j))
    } else {
        match infix_of(tk(ts, j)) {
            Some((op, power)) => if power >= min {
                match p_expr(ts, j + 1, power + 1) {
                    Ok((r, k)) => if j < k <= ts.len() {
                        let e = match op {
                            Some(b) => SPExpr::BinOp(
                                sp(b, loc(ts, j, j + 1)),
                                Box::new(lhs),
                                Box::new(r),
                            ),
                            None => SPExpr::Sequence(Box::new(lhs), Box::new(r)),
                        };
                        p_loop(ts, i0, sp(e, loc(ts, i0, k)), k, min)
                    } else {
                        Err(k)
                    },
                    Err(_) => Ok((lhs, j)),
                }
            } else {
                Ok((lhs, j))
            },
            None => if app_power() >= min && starts_atom(tk(ts, j)) {
                match p_atom(ts, j) {
                    Ok((r, k)) => if j < k <= ts.len() {
                        p_loop(
                            ts,
                            i0,
                            sp(SPExpr::App(Box::new(lhs), Box::new(r)), loc(ts, i0, k)),
                            k,
                            min,
                        )
                    } else {
                        Err(k)
                    },
                    Err(_) => Ok((lhs, j)),
                }
            } else {
                Ok((lhs, j))
            },
        }
    }
}

/// An atom that starts at `i`: a literal, a variable, a `let`, `fn` or `if`
/// form, or a parenthesised expression (which keeps the position of the
/// expression inside).
pub open spec fn p_atom(ts: TokSeq, i: int) -> PRes
    decreases ts.len() - i, 0int,
{
    if !(0 <= i < ts.len()) {
        Err(i)
    } else {
        match tk(ts, i) {
            STok::Num(x) => Ok((sp(SPExpr::Num(x), loc(ts, i, i + 1)), i + 1)),
            STok::True => Ok((sp(SPExpr::Bool(true), loc(ts, i, i + 1)), i + 1)),
            STok::False => Ok((sp(SPExpr::Bool(false), loc(ts, i, i + 1)), i + 1)),
            STok::Ident(x) => Ok((sp(SPExpr::Var(x), loc(ts, i, i + 1)), i + 1)),
            STok::Let => if i + 1 < ts.len() && tk(ts, i + 1) is Ident {
                let name = sp(tk(ts, i + 1)->Ident_0, loc(ts, i + 1, i + 2));
                match p_annot(ts, i + 2) {
                    Ok((ty, m)) => if i < m < ts.len() && tk(ts, m) is Eq {
                        match p_expr(ts, m + 1, 0) {
                            Ok((a, k)) => if i < k < ts.len() && tk(ts, k) is In {
                                match p_expr(ts, k + 1, 0) {
                                    Ok((b, l)) => if i < l {
                                        Ok(
                                            (
                                                sp(
                                                    SPExpr::LetIn(name, ty, Box::new(a), Box::new(b)),
                                                    loc(ts, i, l),
                                                ),
                                                l,
                                            ),
                                        )
                                    } else {
                                        Err(l)
                                    },
                                    Err(e) => Err(e),
                                }
                            } else {
                                Err(k)
                            },
                            Err(e) => Err(e),
                        }
                    } else {
                        Err(m)
                    },
                    Err(e) => Err(e),
                }
            } else {
                Err(i + 1)
            },
            STok::Fn => if i + 1 < ts.len() && tk(ts, i + 1) is Ident {
                let name = sp(tk(ts, i + 1)->Ident_0, loc(ts, i + 1, i + 2));
                match p_annot(ts, i + 2) {
                    Ok((ty, m)) => if i < m < ts.len() && tk(ts, m) is ThickArrow {
                        match p_expr(ts, m + 1, 0) {
                            Ok((b, l)) => if i < l {
                                Ok((sp(SPExpr::Fn(name, ty, Box::new(b)), loc(ts, i, l)), l))
                            } else {
                                Err(l)
                            },
                            Err(e) => Err(e),
                        }
                    } else {
                        Err(m)
                    },
                    Err(e) => Err(e),
                }
            } else {
                Err(i + 1)
            },
            STok::If => match p_expr(ts, i + 1, 0) {
                Ok((c, j)) => if i < j < ts.len() && tk(ts, j) is Then {
                    match p_expr(ts, j + 1, 0) {
                        Ok((a, k)) => if i < k < ts.len() && tk(ts, k) is Else {
                            match p_expr(ts, k + 1, 0) {
                                Ok((b, l)) => if i < l {
                                    Ok(
                                        (
                                            sp(
                                                SPExpr::If(Box::new(c), Box::new(a), Box::new(b)),
                                                loc(ts, i, l),
                                            ),
                                            l,
                                        ),
                                    )
                                } else {
                                    Err(l)
                                },
                                Err(e) => Err(e),
                            }
                        } else {
                            Err(k)
                        },
                        Err(e) => Err(e),
                    }
                } else {
                    Err(j)
                },
                Err(e) => Err(e),
            },
            STok::LParen => match p_expr(ts, i + 1, 0) {
                Ok((e, j)) => if i < j < ts.len() && tk(ts, j) is RParen {
                    Ok((e, j + 1))
                } else {
                    Err(j)
                },
                Err(e) => Err(e),
            },
            _ => Err(i),
        }
    }
}

/// The expression that the whole token sequence spells, or the position of
/// the first token that is wrong (the length of the sequence for a missing
/// token at the end).
pub open spec fn parse_tokens(ts: TokSeq) -> Result<Spanned<SPExpr>, int> {
    match p_expr(ts, 0, 0) {
        Ok((e, j)) => if j == ts.len() {
            Ok(e)
        } else {
            Err(j)
        },
        Err(p) => Err(p),
    }
}


/// A token that stands alone as an operand: a number or a name.
pub open spec fn is_operand(t: STok) -> bool {
    t is Num || t is Ident
}

/// The tree of an operand token.
pub open spec fn operand_term(t: STok) -> Term {
    match t {
        STok::Num(x) => Term::Num(x),
        STok::Ident(x) => Term::Var(x),
        _ => Term::Unit,
    }
}

/// The binary operators with their levels: `*` and `/` bind more tightly
/// than `+` and `-`, which bind more tightly than the comparisons.
pub open spec fn arith_level(t: STok) -> Option<(BinOp, int)> {
    match t {
        STok::Eq => Some((BinOp::Eq, 0)),
        STok::Neq => Some((BinOp::Neq, 0)),
        STok::Geq => Some((BinOp::Geq, 0)),
        STok::Gt => Some((BinOp::Gt, 0)),
        STok::Leq => Some((BinOp::Leq, 0)),
        STok::Lt => Some((BinOp::Lt, 0)),
        STok::Plus => Some((BinOp::Plus, 1)),
        STok::Minus => Some((BinOp::Minus, 1)),
        STok::Asterisk => Some((BinOp::Times, 2)),
        STok::Slash => Some((BinOp::Div, 2)),
        _ => None,
    }
}

/// `a op1 b op2 c`, for operands `a`, `b`, `c` and binary operators, groups
/// as `a op1 (b op2 c)` when `op2` binds more tightly than `op1`, and as
/// `(a op1 b) op2 c` otherwise: `*` and `/` share a level above the one of
/// `+` and `-`, the comparisons share the lowest, and operators of one level
/// associate to the left.
pub proof fn law_arith_precedence(ts: TokSeq)
    requires
        ts.len() == 5,
        is_operand(tk(ts, 0)),
        is_operand(tk(ts, 2)),
        is_operand(tk(ts, 4)),
        arith_level(tk(ts, 1)) is Some,
        arith_level(tk(ts, 3)) is Some,
    ensures
        parse_tokens(ts) is Ok,
        ({
            let (o1, l1) = arith_level(tk(ts, 1))->Some_0;
            let (o2, l2) = arith_level(tk(ts, 3))->Some_0;
            let a = operand_term(tk(ts, 0));
            let b = operand_term(tk(ts, 2));
            let c = operand_term(tk(ts, 4));
            sp_term(parse_tokens(ts)->Ok_0) == if l2 > l1 {
                Term::BinOp(o1, Box::new(a), Box::new(Term::BinOp(o2, Box::new(b), Box::new(c))))
            } else {
                Term::BinOp(o2, Box::new(Term::BinOp(o1, Box::new(a), Box::new(b))), Box::new(c))
            }
        }),
{
    let w1 = infix_of(tk(ts, 1))->Some_0.1;
    let w2 = infix_of(tk(ts, 3))->Some_0.1;
    let op1 = infix_of(tk(ts, 1))->Some_0.0->Some_0;
    let op2 = infix_of(tk(ts, 3))->Some_0.0->Some_0;
    let ea = p_atom(ts, 0)->Ok_0.0;
    let eb = p_atom(ts, 2)->Ok_0.0;
    let ec = p_atom(ts, 4)->Ok_0.0;
    let (o1, l1) = arith_level(tk(ts, 1))->Some_0;
    let (o2, l2) = arith_level(tk(ts, 3))->Some_0;
    assert(w1 == 2 * l1 + 2 && op1 == o1);
    assert(w2 == 2 * l2 + 2 && op2 == o2);
    assert(p_atom(ts, 0) == Ok::<(Spanned<SPExpr>, int), int>((ea, 1)));
    assert(p_atom(ts, 2) == Ok::<(Spanned<SPExpr>, int), int>((eb, 3)));
    assert(p_atom(ts, 4) == Ok::<(Spanned<SPExpr>, int), int>((ec, 5)));
    assert(sp_term(ea) == operand_term(tk(ts, 0)));
    assert(sp_term(eb) == operand_term(tk(ts, 2)));
    assert(sp_term(ec) == operand_term(tk(ts, 4)));
    // The last operand, read at any binding power, is just itself.
    assert forall|m: int| #[trigger] p_expr(ts, 4, m) == Ok::<(Spanned<SPExpr>, int), int>((ec, 5)) by {
        assert(p_loop(ts, 4, ec, 5, m) == Ok::<(Spanned<SPExpr>, int), int>((ec, 5)));
    }
    if w2 >= w1 + 1 {
        let bc = sp(SPExpr::BinOp(sp(op2, loc(ts, 3, 4)), Box::new(eb), Box::new(ec)), loc(ts, 2, 5));
        assert(p_loop(ts, 2, bc, 5, w1 + 1) == Ok::<(Spanned<SPExpr>, int), int>((bc, 5)));
        assert(p_expr(ts, 4, w2 + 1) == Ok::<(Spanned<SPExpr>, int), int>((ec, 5)));
        assert(p_loop(ts, 2, eb, 3, w1 + 1) == Ok::<(Spanned<SPExpr>, int), int>((bc, 5)));
        assert(p_expr(ts, 2, w1 + 1) == Ok::<(Spanned<SPExpr>, int), int>((bc, 5)));
        let abc = sp(SPExpr::BinOp(sp(op1, loc(ts, 1, 2)), Box::new(ea), Box::new(bc)), loc(ts, 0, 5));
        assert(p_loop(ts, 0, abc, 5, 0) == Ok::<(Spanned<SPExpr>, int), int>((abc, 5)));
        assert(p_loop(ts, 0, ea, 1, 0) == Ok::<(Spanned<SPExpr>, int), int>((abc, 5)));
        assert(p_expr(ts, 0, 0) == Ok::<(Spanned<SPExpr>, int), int>((abc, 5)));
        assert(parse_tokens(ts) == Ok::<Spanned<SPExpr>, int>(abc));
        assert(sp_term(bc) == Term::BinOp(o2, Box::new(sp_term(eb)), Box::new(sp_term(ec))));
        assert(sp_term(abc) == Term::BinOp(o1, Box::new(sp_term(ea)), Box::new(sp_term(bc))));
    } else {
        assert(p_loop(ts, 2, eb, 3, w1 + 1) == Ok::<(Spanned<SPExpr>, int), int>((eb, 3)));
        assert(p_expr(ts, 2, w1 + 1) == Ok::<(Spanned<SPExpr>, int), int>((eb, 3)));
        let ab = sp(SPExpr::BinOp(sp(op1, loc(ts, 1, 2)), Box::new(ea), Box::new(eb)), loc(ts, 0, 3));
        let abc = sp(SPExpr::BinOp(sp(op2, loc(ts, 3, 4)), Box::new(ab), Box::new(ec)), loc(ts, 0, 5));
        assert(p_loop(ts, 0, abc, 5, 0) == Ok::<(Spanned<SPExpr>, int), int>((abc, 5)));
        assert(p_expr(ts, 4, w2 + 1) == Ok::<(Spanned<SPExpr>, int), int>((ec, 5)));
        assert(p_loop(ts, 0, ab, 3, 0) == Ok::<(Spanned<SPExpr>, int), int>((abc, 5)));
        assert(p_loop(ts, 0, ea, 1, 0) == Ok::<(Spanned<SPExpr>, int), int>((abc, 5)));
        assert(p_expr(ts, 0, 0) == Ok::<(Spanned<SPExpr>, int), int>((abc, 5)));
        assert(parse_tokens(ts) == Ok::<Spanned<SPExpr>, int>(abc));
        assert(sp_term(ab) == Term::BinOp(o1, Box::new(sp_term(ea)), Box::new(sp_term(eb))));
        assert(sp_term(abc) == Term::BinOp(o2, Box::new(sp_term(ab)), Box::new(sp_term(ec))));
    }
}

/// Application binds more tightly than every binary operator: `f a op b`
/// groups as `(f a) op b`, and `a op f b` as `a op (f b)`, for operands and
/// a binary operator `op`.
pub proof fn law_application_binds_tightest(ts: TokSeq)
    requires
        ts.len() == 4,
        arith_level(tk(ts, 2)) is Some || arith_level(tk(ts, 1)) is Some,
        arith_level(tk(ts, 2)) is Some ==> is_operand(tk(ts, 0)) && is_operand(tk(ts, 1)) && is_operand(
            tk(ts, 3),
        ),
        arith_level(tk(ts, 1)) is Some ==> is_operand(tk(ts, 0)) && is_operand(tk(ts, 2)) && is_operand(
            tk(ts, 3),
        ),
    ensures
        parse_tokens(ts) is Ok,
        arith_level(tk(ts, 2)) is Some ==> sp_term(parse_tokens(ts)->Ok_0) == Term::BinOp(
            arith_level(tk(ts, 2))->Some_0.0,
            Box::new(Term::App(Box::new(operand_term(tk(ts, 0))), Box::new(operand_term(tk(ts, 1))))),
            Box::new(operand_term(tk(ts, 3))),
        ),
        arith_level(tk(ts, 1)) is Some ==> sp_term(parse_tokens(ts)->Ok_0) == Term::BinOp(
            arith_level(tk(ts, 1))->Some_0.0,
            Box::new(operand_term(tk(ts, 0))),
            Box::new(Term::App(Box::new(operand_term(tk(ts, 2))), Box::new(operand_term(tk(ts, 3))))),
        ),
{
    if arith_level(tk(ts, 2)) is Some {
        let ef = p_atom(ts, 0)->Ok_0.0;
        let ea = p_atom(ts, 1)->Ok_0.0;
        let eb = p_atom(ts, 3)->Ok_0.0;
        assert(p_atom(ts, 0) == Ok::<(Spanned<SPExpr>, int), int>((ef, 1)));
        assert(p_atom(ts, 1) == Ok::<(Spanned<SPExpr>, int), int>((ea, 2)));
        assert(p_atom(ts, 3) == Ok::<(Spanned<SPExpr>, int), int>((eb, 4)));
        let w = infix_of(tk(ts, 2))->Some_0.1;
        let op = infix_of(tk(ts, 2))->Some_0.0->Some_0;
        assert(op == arith_level(tk(ts, 2))->Some_0.0);
        assert(p_loop(ts, 3, eb, 4, w + 1) == Ok::<(Spanned<SPExpr>, int), int>((eb, 4)));
        assert(p_expr(ts, 3, w + 1) == Ok::<(Spanned<SPExpr>, int), int>((eb, 4)));
        let fa = sp(SPExpr::App(Box::new(ef), Box::new(ea)), loc(ts, 0, 2));
        let e = sp(SPExpr::BinOp(sp(op, loc(ts, 2, 3)), Box::new(fa), Box::new(eb)), loc(ts, 0, 4));
        assert(p_loop(ts, 0, e, 4, 0) == Ok::<(Spanned<SPExpr>, int), int>((e, 4)));
        assert(p_loop(ts, 0, fa, 2, 0) == Ok::<(Spanned<SPExpr>, int), int>((e, 4)));
        assert(starts_atom(tk(ts, 1)));
        assert(p_loop(ts, 0, ef, 1, 0) == Ok::<(Spanned<SPExpr>, int), int>((e, 4)));
        assert(p_expr(ts, 0, 0) == Ok::<(Spanned<SPExpr>, int), int>((e, 4)));
        assert(parse_tokens(ts) == Ok::<Spanned<SPExpr>, int>(e));
        assert(sp_term(fa) == Term::App(Box::new(sp_term(ef)), Box::new(sp_term(ea))));
        assert(sp_term(e) == Term::BinOp(op, Box::new(sp_term(fa)), Box::new(sp_term(eb))));
    } else {
        let ea = p_atom(ts, 0)->Ok_0.0;
        let ef = p_atom(ts, 2)->Ok_0.0;
        let eb = p_atom(ts, 3)->Ok_0.0;
        assert(p_atom(ts, 0) == Ok::<(Spanned<SPExpr>, int), int>((ea, 1)));
        assert(p_atom(ts, 2) == Ok::<(Spanned<SPExpr>, int), int>((ef, 3)));
        assert(p_atom(ts, 3) == Ok::<(Spanned<SPExpr>, int), int>((eb, 4)));
        let w = infix_of(tk(ts, 1))->Some_0.1;
        let op = infix_of(tk(ts, 1))->Some_0.0->Some_0;
        assert(op == arith_level(tk(ts, 1))->Some_0.0);
        assert(w + 1 <= app_power());
        let fb = sp(SPExpr::App(Box::new(ef), Box::new(eb)), loc(ts, 2, 4));
        assert(p_loop(ts, 2, fb, 4, w + 1) == Ok::<(Spanned<SPExpr>, int), int>((fb, 4)));
        assert(starts_atom(tk(ts, 3)));
        assert(p_loop(ts, 2, ef, 3, w + 1) == Ok::<(Spanned<SPExpr>, int), int>((fb, 4)));
        assert(p_expr(ts, 2, w + 1) == Ok::<(Spanned<SPExpr>, int), int>((fb, 4)));
        let e = sp(SPExpr::BinOp(sp(op, loc(ts, 1, 2)), Box::new(ea), Box::new(fb)), loc(ts, 0, 4));
        assert(p_loop(ts, 0, e, 4, 0) == Ok::<(Spanned<SPExpr>, int), int>((e, 4)));
        assert(p_loop(ts, 0, ea, 1, 0) == Ok::<(Spanned<SPExpr>, int), int>((e, 4)));
        assert(p_expr(ts, 0, 0) == Ok::<(Spanned<SPExpr>, int), int>((e, 4)));
        assert(parse_tokens(ts) == Ok::<Spanned<SPExpr>, int>(e));
        assert(sp_term(fb) == Term::App(Box::new(sp_term(ef)), Box::new(sp_term(eb))));
        assert(sp_term(e) == Term::BinOp(op, Box::new(sp_term(ea)), Box::new(sp_term(fb))));
    }
}

/// The model of the outcome of reading a type.
pub open spec fn tres(r: Result<(Type, usize), usize>) -> Result<(SType, int), int> {
    match r {
        Ok((t, j)) => Ok((t@, j as int)),
        Err(p) => Err(p as int),
    }
}

/// The model of the outcome of reading an expression.
pub open spec fn pres(r: Result<(Spanned<PExpr>, usize), usize>) -> PRes {
    match r {
        Ok((e, j)) => Ok((pmodel(e), j as int)),
        Err(p) => Err(p as int),
    }
}

/// Whether a successful outcome ends within the tokens.
pub open spec fn ends_within<T>(r: Result<(T, usize), usize>, n: int) -> bool {
    match r {
        Ok((_, j)) => j <= n,
        Err(_) => true,
    }
}

/// The position from the start of token `i` to the end of token `j - 1`.
pub(crate) fn span_of(toks: &Vec<Spanned<Token>>, i: usize, j: usize) -> (r: CodeLoc)
    requires
        i < j <= toks.len(),
    ensures
        r == loc(toks_model(toks@), i as int, j as int),
{
    (toks[i].span.0, toks[j - 1].span.1)
}

fn parse_tatom(toks: &Vec<Spanned<Token>>, i: usize) -> (r: Result<(Type, usize), usize>)
    ensures
        tres(r) == p_tatom(toks_model(toks@), i as int),
        ends_within(r, toks.len() as int),
    decreases toks.len() - i, 0int,
{
    let ghost ts = toks_model(toks@);
    if i >= toks.len() {
        return Err(i);
    }
    assert(tk(ts, i as int) == toks@[i as int].inner@);
    match &toks[i].inner {
        Token::Ident(x) => {
            if *x == String::from_str("num") || *x == String::from_str("int") {
                Ok((Type::Num, i + 1))
            } else if *x == String::from_str("bool") {
                Ok((Type::Bool, i + 1))
            } else if *x == String::from_str("unit") {
                Ok((Type::Unit, i + 1))
            } else {
                Err(i)
            }
        },
        Token::SingleQuote => {
            if i + 1 < toks.len() {
                assert(tk(ts, i + 1) == toks@[i + 1].inner@);
                match &toks[i + 1].inner {
                    Token::Ident(x) => Ok((Type::Tyvar(x.clone()), i + 2)),
                    _ => Err(i + 1),
                }
            } else {
                Err(i + 1)
            }
        },
        Token::LParen => match parse_type(toks, i + 1) {
            Ok((t, j)) => {
                if i < j && j < toks.len() && matches!(toks[j].inner, Token::RParen) {
                    Ok((t, j + 1))
                } else {
                    proof {
                        if i < j && j < toks.len() {
                            assert(tk(ts, j as int) == toks@[j as int].inner@);
                        }
                    }
                    Err(j)
                }
            },
            Err(e) => Err(e),
        },
        _ => Err(i),
    }
}

fn parse_type(toks: &Vec<Spanned<Token>>, i: usize) -> (r: Result<(Type, usize), usize>)
    ensures
        tres(r) == p_type(toks_model(toks@), i as int),
        ends_within(r, toks.len() as int),
    decreases toks.len() - i, 1int,
{
    match parse_tatom(toks, i) {
        Ok((t, j)) => if i < j && j <= toks.len() {
            type_loop(toks, t, j)
        } else {
            Err(j)
        },
        Err(e) => Err(e),
    }
}

fn type_loop(toks: &Vec<Spanned<Token>>, lhs: Type, j: usize) -> (r: Result<(Type, usize), usize>)
    requires
        j <= toks.len(),
    ensures
        tres(r) == t_loop(toks_model(toks@), lhs@, j as int),
        ends_within(r, toks.len() as int),
    decreases toks.len() - j, 2int,
{
    let ghost ts = toks_model(toks@);
    if j < toks.len() && matches!(toks[j].inner, Token::ThinArrow) {
        assert(tk(ts, j as int) == toks@[j as int].inner@);
        match parse_tatom(toks, j + 1) {
            Ok((r, k)) => if j < k && k <= toks.len() {
                type_loop(toks, Type::Fn(Box::new(lhs), Box::new(r)), k)
            } else {
                Err(k)
            },
            Err(_) => Ok((lhs, j)),
        }
    } else {
        proof {
            if j < toks.len() {
                assert(tk(ts, j as int) == toks@[j as int].inner@);
            }
        }
        Ok((lhs, j))
    }
}


pub(crate) fn parse_annot(toks: &Vec<Spanned<Token>>, i: usize) -> (r: Result<(Option<Type>, usize), usize>)
    requires
        i <= toks.len(),
    ensures
        match r {
            Ok((t, j)) => p_annot(toks_model(toks@), i as int) == Ok::<(Option<SType>, int), int>(
                (opt_model(t), j as int),
            ) && j <= toks.len(),
            Err(p) => p_annot(toks_model(toks@), i as int) == Err::<(Option<SType>, int), int>(
                p as int,
            ),
        },
{
    let ghost ts = toks_model(toks@);
    if i < toks.len() && matches!(toks[i].inner, Token::Colon) {
        assert(tk(ts, i as int) == toks@[i as int].inner@);
        match parse_type(toks, i + 1) {
            Ok((t, j)) => Ok((Some(t), j)),
            Err(e) => Err(e),
        }
    } else {
        proof {
            if i < toks.len() {
                assert(tk(ts, i as int) == toks@[i as int].inner@);
            }
        }
        Ok((None, i))
    }
}

fn infix_exec(t: &Token) -> (r: Option<(Option<BinOp>, u32)>)
    ensures
        match r {
            Some((op, power)) => infix_of(t@) == Some::<(Option<BinOp>, int)>((op, power as int)),
            None => infix_of(t@) is None,
        },
{
    match t {
        Token::Semicolon => Some((None, 0)),
        Token::Eq => Some((Some(BinOp::Eq), 2)),
        Token::Neq => Some((Some(BinOp::Neq), 2)),
        Token::Geq => Some((Some(BinOp::Geq), 2)),
        Token::Gt => Some((Some(BinOp::Gt), 2)),
        Token::Leq => Some((Some(BinOp::Leq), 2)),
        Token::Lt => Some((Some(BinOp::Lt), 2)),
        Token::Plus => Some((Some(BinOp::Plus), 4)),
        Token::Minus => Some((Some(BinOp::Minus), 4)),
        Token::Asterisk => Some((Some(BinOp::Times), 6)),
        Token::Slash => Some((Some(BinOp::Div), 6)),
        _ => None,
    }
}

fn starts_atom_exec(t: &Token) -> (r: bool)
    ensures
        r == starts_atom(t@),
{
    match t {
        Token::Num(_) | Token::True | Token::False | Token::Ident(_) | Token::Let | Token::Fn
        | Token::If | Token::LParen => true,
        _ => false,
    }
}

pub(crate) fn parse_expr(toks: &Vec<Spanned<Token>>, i: usize, min: u32) -> (r: Result<
    (Spanned<PExpr>, usize),
    usize,
>)
    ensures
        pres(r) == p_expr(toks_model(toks@), i as int, min as int),
        ends_within(r, toks.len() as int),
    decreases toks.len() - i, 3int,
{
    let ghost ts = toks_model(toks@);
    if i < toks.len() && matches!(toks[i].inner, Token::Minus) {
        assert(tk(ts, i as int) == toks@[i as int].inner@);
        match parse_expr(toks, i + 1, 5) {
            Ok((e, j)) => if i < j && j <= toks.len() {
                let span = span_of(toks, i, j);
                parse_loop(toks, i, Spanned { inner: PExpr::Neg(Box::new(e)), span }, j, min)
            } else {
                Err(j)
            },
            Err(e) => Err(e),
        }
    } else {
        proof {
            if i < toks.len() {
                assert(tk(ts, i as int) == toks@[i as int].inner@);
            }
        }
        match parse_atom(toks, i) {
            Ok((a, j)) => if i < j && j <= toks.len() {
                parse_loop(toks, i, a, j, min)
            } else {
                Err(j)
            },
            Err(e) => Err(e),
        }
    }
}

fn parse_loop(
    toks: &Vec<Spanned<Token>>,
    i0: usize,
    lhs: Spanned<PExpr>,
    j: usize,
    min: u32,
) -> (r: Result<(Spanned<PExpr>, usize), usize>)
    requires
        i0 < j <= toks.len(),
    ensures
        pres(r) == p_loop(toks_model(toks@), i0 as int, pmodel(lhs), j as int, min as int),
        ends_within(r, toks.len() as int),
    decreases toks.len() - j, 2int,
{
    let ghost ts = toks_model(toks@);
    if j >= toks.len() {
        return Ok((lhs, j));
    }
    assert(tk(ts, j as int) == toks@[j as int].inner@);
    match infix_exec(&toks[j].inner) {
        Some((op, power)) => if power >= min {
            match parse_expr(toks, j + 1, power + 1) {
                Ok((r, k)) => if j < k && k <= toks.len() {
                    let e = match op {
                        Some(b) => PExpr::BinOp(
                            Spanned { inner: b, span: span_of(toks, j, j + 1) },
                            Box::new(lhs),
                            Box::new(r),
                        ),
                        None => PExpr::Sequence(Box::new(lhs), Box::new(r)),
                    };
                    let span = span_of(toks, i0, k);
                    parse_loop(toks, i0, Spanned { inner: e, span }, k, min)
                } else {
                    Err(k)
                },
                Err(_) => Ok((lhs, j)),
            }
        } else {
            Ok((lhs, j))
        },
        None => if 20 >= min && starts_atom_exec(&toks[j].inner) {
            match parse_atom(toks, j) {
                Ok((r, k)) => if j < k && k <= toks.len() {
                    let span = span_of(toks, i0, k);
                    parse_loop(
                        toks,
                        i0,
                        Spanned { inner: PExpr::App(Box::new(lhs), Box::new(r)), span },
                        k,
                        min,
                    )
                } else {
                    Err(k)
                },
                Err(_) => Ok((lhs, j)),
            }
        } else {
            Ok((lhs, j))
        },
    }
}

fn parse_atom(toks: &Vec<Spanned<Token>>, i: usize) -> (r: Result<(Spanned<PExpr>, usize), usize>)
    ensures
        pres(r) == p_atom(toks_model(toks@), i as int),
        ends_within(r, toks.len() as int),
    decreases toks.len() - i, 1int,
{
    let ghost ts = toks_model(toks@);
    if i >= toks.len() {
        return Err(i);
    }
    assert(tk(ts, i as int) == toks@[i as int].inner@);
    match &toks[i].inner {
        Token::Num(x) => Ok(
            (Spanned { inner: PExpr::Num(x.clone()), span: span_of(toks, i, i + 1) }, i + 1),
        ),
        Token::True => Ok((Spanned { inner: PExpr::Bool(true), span: span_of(toks, i, i + 1) }, i + 1)),
        Token::False => Ok(
            (Spanned { inner: PExpr::Bool(false), span: span_of(toks, i, i + 1) }, i + 1),
        ),
        Token::Ident(x) => Ok(
            (Spanned { inner: PExpr::Var(x.clone()), span: span_of(toks, i, i + 1) }, i + 1),
        ),
        Token::Let => parse_let(toks, i),
        Token::Fn => parse_fn(toks, i),
        Token::If => parse_if(toks, i),
        Token::LParen => match parse_expr(toks, i + 1, 0) {
            Ok((e, j)) => if i < j && j < toks.len() && matches!(toks[j].inner, Token::RParen) {
                Ok((e, j + 1))
            } else {
                proof {
                    if i < j && j < toks.len() {
                        assert(tk(ts, j as int) == toks@[j as int].inner@);
                    }
                }
                Err(j)
            },
            Err(e) => Err(e),
        },
        _ => Err(i),
    }
}


fn parse_let(toks: &Vec<Spanned<Token>>, i: usize) -> (r: Result<(Spanned<PExpr>, usize), usize>)
    requires
        i < toks.len(),
        toks@[i as int].inner@ is Let,
    ensures
        pres(r) == p_atom(toks_model(toks@), i as int),
        ends_within(r, toks.len() as int),
    decreases toks.len() - i, 0int,
{
    let ghost ts = toks_model(toks@);
    assert(tk(ts, i as int) == toks@[i as int].inner@);
    if i + 1 >= toks.len() {
        return Err(i + 1);
    }
    assert(tk(ts, i + 1) == toks@[i + 1].inner@);
    let name = match &toks[i + 1].inner {
        Token::Ident(x) => Spanned { inner: x.clone(), span: span_of(toks, i + 1, i + 2) },
        _ => {
            return Err(i + 1);
        },
    };
    match parse_annot(toks, i + 2) {
        Ok((ty, m)) => if i < m && m < toks.len() && matches!(toks[m].inner, Token::Eq) {
            match parse_expr(toks, m + 1, 0) {
                Ok((a, k)) => if i < k && k < toks.len() && matches!(toks[k].inner, Token::In) {
                    match parse_expr(toks, k + 1, 0) {
                        Ok((b, l)) => if i < l {
                            let span = span_of(toks, i, l);
                            Ok(
                                (
                                    Spanned {
                                        inner: PExpr::LetIn(name, ty, Box::new(a), Box::new(b)),
                                        span,
                                    },
                                    l,
                                ),
                            )
                        } else {
                            Err(l)
                        },
                        Err(e) => Err(e),
                    }
                } else {
                    proof {
                        if i < k && k < toks.len() {
                            assert(tk(ts, k as int) == toks@[k as int].inner@);
                        }
                    }
                    Err(k)
                },
                Err(e) => Err(e),
            }
        } else {
            proof {
                if i < m && m < toks.len() {
                    assert(tk(ts, m as int) == toks@[m as int].inner@);
                }
            }
            Err(m)
        },
        Err(e) => Err(e),
    }
}

fn parse_fn(toks: &Vec<Spanned<Token>>, i: usize) -> (r: Result<(Spanned<PExpr>, usize), usize>)
    requires
        i < toks.len(),
        toks@[i as int].inner@ is Fn,
    ensures
        pres(r) == p_atom(toks_model(toks@), i as int),
        ends_within(r, toks.len() as int),
    decreases toks.len() - i, 0int,
{
    let ghost ts = toks_model(toks@);
    assert(tk(ts, i as int) == toks@[i as int].inner@);
    if i + 1 >= toks.len() {
        return Err(i + 1);
    }
    assert(tk(ts, i + 1) == toks@[i + 1].inner@);
    let name = match &toks[i + 1].inner {
        Token::Ident(x) => Spanned { inner: x.clone(), span: span_of(toks, i + 1, i + 2) },
        _ => {
            return Err(i + 1);
        },
    };
    match parse_annot(toks, i + 2) {
        Ok((ty, m)) => if i < m && m < toks.len() && matches!(toks[m].inner, Token::ThickArrow) {
            match parse_expr(toks, m + 1, 0) {
                Ok((b, l)) => if i < l {
                    let span = span_of(toks, i, l);
                    Ok((Spanned { inner: PExpr::Fn(name, ty, Box::new(b)), span }, l))
                } else {
                    Err(l)
                },
                Err(e) => Err(e),
            }
        } else {
            proof {
                if i < m && m < toks.len() {
                    assert(tk(ts, m as int) == toks@[m as int].inner@);
                }
            }
            Err(m)
        },
        Err(e) => Err(e),
    }
}

fn parse_if(toks: &Vec<Spanned<Token>>, i: usize) -> (r: Result<(Spanned<PExpr>, usize), usize>)
    requires
        i < toks.len(),
        toks@[i as int].inner@ is If,
    ensures
        pres(r) == p_atom(toks_model(toks@), i as int),
        ends_within(r, toks.len() as int),
    decreases toks.len() - i, 0int,
{
    let ghost ts = toks_model(toks@);
    assert(tk(ts, i as int) == toks@[i as int].inner@);
    match parse_expr(toks, i + 1, 0) {
        Ok((c, j)) => if i < j && j < toks.len() && matches!(toks[j].inner, Token::Then) {
            match parse_expr(toks, j + 1, 0) {
                Ok((a, k)) => if i < k && k < toks.len() && matches!(toks[k].inner, Token::Else) {
                    match parse_expr(toks, k + 1, 0) {
                        Ok((b, l)) => if i < l {
                            let span = span_of(toks, i, l);
                            Ok(
                                (
                                    Spanned {
                                        inner: PExpr::If(Box::new(c), Box::new(a), Box::new(b)),
                                        span,
                                    },
                                    l,
                                ),
                            )
                        } else {
                            Err(l)
                        },
                        Err(e) => Err(e),
                    }
                } else {
                    proof {
                        if i < k && k < toks.len() {
                            assert(tk(ts, k as int) == toks@[k as int].inner@);
                        }
                    }
                    Err(k)
                },
                Err(e) => Err(e),
            }
        } else {
            proof {
                if i < j && j < toks.len() {
                    assert(tk(ts, j as int) == toks@[j as int].inner@);
                }
            }
            Err(j)
        },
        Err(e) => Err(e),
    }
}


/// The position and the text of what stands at token `p`, or the end of the
/// source (of length `n`) when `p` is past the last token.
pub open spec fn error_at(ts: TokSeq, p: int, n: int) -> (CodeLoc, Option<Seq<char>>) {
    if 0 <= p < ts.len() {
        ((ts[p].1.0 as usize, ts[p].1.1 as usize), Some(tok_text(ts[p].0)))
    } else {
        ((n as usize, n as usize), None)
    }
}

/// Whether `e` reports position `span` and text `found`.
pub open spec fn reports(e: ParseError, span: CodeLoc, found: Option<Seq<char>>) -> bool {
    e.span == span && found_model(e.found) == found
}

/// The expression that the source text spells, if it can be read.
pub open spec fn parsed(src: Seq<char>) -> Option<Spanned<SPExpr>> {
    match lex(src) {
        Ok(ts) => match parse_tokens(ts) {
            Ok(e) => Some(e),
            Err(_) => None,
        },
        Err(_) => None,
    }
}

/// Where a text that cannot be read goes wrong, and what stands there: a
/// character that starts no token, or else the first token that does not
/// fit (the end of the text when one is missing).
pub open spec fn failure_of(src: Seq<char>) -> (CodeLoc, Option<Seq<char>>) {
    match lex(src) {
        Err(p) => ((p as usize, (p + 1) as usize), Some(seq![src[p]])),
        Ok(ts) => match parse_tokens(ts) {
            Err(p) => error_at(ts, p, src.len() as int),
            Ok(_) => ((0, 0), None),
        },
    }
}

/// Whether `es` are the errors reported for a text that cannot be read.
pub open spec fn parse_errors(src: Seq<char>, es: Seq<ParseError>) -> bool {
    es.len() == 1 && reports(es[0], failure_of(src).0, failure_of(src).1)
}

pub(crate) fn error_at_exec(toks: &Vec<Spanned<Token>>, p: usize, n: usize) -> (e: ParseError)
    ensures
        reports(e, error_at(toks_model(toks@), p as int, n as int).0, error_at(toks_model(toks@), p as int, n as int).1),
{
    let ghost ts = toks_model(toks@);
    if p < toks.len() {
        assert(ts[p as int] == (toks@[p as int].inner@, (toks@[p as int].span.0 as int, toks@[p as int].span.1 as int)));
        ParseError { span: toks[p].span, found: Some(toks[p].inner.to_text()) }
    } else {
        ParseError { span: (n, n), found: None }
    }
}

/// Reads a whole program.  Positions are character indices into `src`.  A
/// character that starts no token is reported with its position; otherwise
/// the first token that cannot be read (or the end of the input) is.
pub fn parse(src: &str) -> (r: Result<Spanned<PExpr>, Vec<ParseError>>)
    ensures
        match parsed(src@) {
            Some(e) => r matches Ok(x) && pmodel(x) == e,
            None => r matches Err(es) && parse_errors(src@, es@),
        },
{
    let toks = match lexer(src) {
        Ok(t) => t,
        Err(e) => {
            let es = vec![e];
            assert(es@ =~= seq![e]);
            return Err(es);
        },
    };
    let n = src.unicode_len();
    let r = match parse_expr(&toks, 0, 0) {
        Ok((e, j)) => if j == toks.len() {
            Ok(e)
        } else {
            Err(error_at_exec(&toks, j, n))
        },
        Err(p) => Err(error_at_exec(&toks, p, n)),
    };
    match r {
        Ok(e) => Ok(e),
        Err(e) => {
            let es = vec![e];
            assert(es@ =~= seq![e]);
            Err(es)
        },
    }
}

} // verus!
