//! Declarations: `let name [: type] params = body`, or an expression.
use vstd::prelude::*;
use crate::ast::{opt_model, pmodel, Decl, PExpr, SPExpr, SType, Spanned, Type};
use crate::lexer::{lex, lexer, toks_model, ParseError, Token};
use crate::parser::{
    error_at, error_at_exec, loc, p_annot, p_expr, parse_annot, parse_expr, parse_tokens, reports,
    sp, span_of, tk, TokSeq,
};
use vstd::string::StrSliceExecFns;

verus! {

/// The model of a [`Decl`].
pub enum SDecl {
    Let(Spanned<Seq<char>>, Option<SType>, Seq<(Spanned<Seq<char>>, Option<SType>)>, Spanned<SPExpr>),
    LetRec(Seq<char>, SType, Spanned<SPExpr>),
    Expr(Spanned<SPExpr>),
}

/// The model of a parameter with its optional type.
pub open spec fn param_model(p: (Spanned<String>, Option<Type>)) -> (Spanned<Seq<char>>, Option<SType>) {
    (Spanned { inner: p.0.inner@, span: p.0.span }, opt_model(p.1))
}

/// The models of parameters.
pub open spec fn params_model(v: Seq<(Spanned<String>, Option<Type>)>) -> Seq<(Spanned<Seq<char>>, Option<SType>)> {
    v.map_values(|p: (Spanned<String>, Option<Type>)| param_model(p))
}

/// The model of a declaration with its position.
pub open spec fn dmodel(d: Spanned<Decl>) -> Spanned<SDecl> {
    Spanned {
        inner: match d.inner {
            Decl::Let(x, ty, ps, e) => SDecl::Let(
                Spanned { inner: x.inner@, span: x.span },
                opt_model(ty),
                params_model(ps@),
                pmodel(*e),
            ),
            Decl::LetRec(x, ty, e) => SDecl::LetRec(x@, ty@, pmodel(e)),
            Decl::Expr(e) => SDecl::Expr(pmodel(e)),
        },
        span: d.span,
    }
}

/// The parameters from `i` on: names, each with an optional annotation.
pub open spec fn p_params(ts: TokSeq, i: int) -> Result<(Seq<(Spanned<Seq<char>>, Option<SType>)>, int), int>
    decreases ts.len() - i,
{
    if 0 <= i < ts.len() && tk(ts, i) is Ident {
        let name = sp(tk(ts, i)->Ident_0, loc(ts, i, i + 1));
        match p_annot(ts, i + 1) {
            Ok((ty, m)) => if i < m <= ts.len() {
                match p_params(ts, m) {
                    Ok((rest, j)) => Ok((seq![(name, ty)] + rest, j)),
                    Err(e) => Err(e),
                }
            } else {
                Err(m)
            },
            Err(e) => Err(e),
        }
    } else {
        Ok((Seq::empty(), i))
    }
}

/// A definition at the start of the tokens, which begin with `let`: the
/// declaration and where it ends, or the position of the token that is
/// wrong.
pub open spec fn p_let_decl(ts: TokSeq) -> Result<(Spanned<SDecl>, int), int> {
    if 1 < ts.len() && tk(ts, 1) is Ident {
        let name = sp(tk(ts, 1)->Ident_0, loc(ts, 1, 2));
        match p_annot(ts, 2) {
            Ok((ty, m)) => if 2 <= m <= ts.len() {
                match p_params(ts, m) {
                    Ok((ps, q)) => if 0 <= q < ts.len() && tk(ts, q) is Eq {
                        match p_expr(ts, q + 1, 0) {
                            Ok((e, j)) => if 0 < j <= ts.len() {
                                Ok((sp(SDecl::Let(name, ty, ps, e), loc(ts, 0, j)), j))
                            } else {
                                Err(j)
                            },
                            Err(p) => Err(p),
                        }
                    } else {
                        Err(q)
                    },
                    Err(p) => Err(p),
                }
            } else {
                Err(m)
            },
            Err(p) => Err(p),
        }
    } else {
        Err(1)
    }
}

/// The declaration that the whole token sequence spells.  A sequence that
/// begins with `let` is read as a definition first; only when no definition
/// can be read there is it read as an expression, and when neither can, the
/// error that lies further on is reported.  A definition that is followed by
/// more tokens is an error at the first of them.
pub open spec fn decl_tokens(ts: TokSeq) -> Result<Spanned<SDecl>, int> {
    let as_expr = match parse_tokens(ts) {
        Ok(e) => Ok(sp(SDecl::Expr(e), e.span)),
        Err(p) => Err(p),
    };
    if 0 < ts.len() && tk(ts, 0) is Let {
        match p_let_decl(ts) {
            Ok((d, j)) => if j == ts.len() {
                Ok(d)
            } else {
                Err(j)
            },
            Err(p1) => match as_expr {
                Ok(d) => Ok(d),
                Err(p2) => Err(if p1 >= p2 { p1 } else { p2 }),
            },
        }
    } else {
        as_expr
    }
}

proof fn lemma_plain_params(ts: TokSeq, i: int, q: int)
    requires
        2 <= i <= q < ts.len(),
        forall|k: int| i <= k < q ==> #[trigger] tk(ts, k) is Ident,
        tk(ts, q) is Eq,
    ensures
        p_params(ts, i) matches Ok((ps, j)) && j == q && ps.len() == q - i && forall|k: int|
            0 <= k < ps.len() ==> (#[trigger] ps[k]).1 is None,
    decreases q - i,
{
    if i < q {
        assert(tk(ts, i) is Ident);
        if i + 1 < q {
            assert(tk(ts, i + 1) is Ident);
        }
        assert(p_annot(ts, i + 1) == Ok::<(Option<SType>, int), int>((None, i + 1)));
        lemma_plain_params(ts, i + 1, q);
        let (rest, j) = p_params(ts, i + 1)->Ok_0;
        let name = sp(tk(ts, i)->Ident_0, loc(ts, i, i + 1));
        assert(p_params(ts, i) == Ok::<(Seq<(Spanned<Seq<char>>, Option<SType>)>, int), int>(
            (seq![(name, None::<SType>)] + rest, j),
        ));
        let ps = seq![(name, None::<SType>)] + rest;
        assert forall|k: int| 0 <= k < ps.len() implies (#[trigger] ps[k]).1 is None by {
            if k > 0 {
                assert(ps[k] == rest[k - 1]);
            }
        }
    }
}

/// The body of a definition is a whole expression, read as a whole program
/// is read (at the loosest binding power): when the tokens after the `=` of
/// `let name x1 ... xn =` form an expression that reaches the end, the
/// declaration is the definition of `name` with the parameters `x1 ... xn`,
/// no annotations, and that expression as its body.
pub proof fn law_decl_body(ts: TokSeq, q: int)
    requires
        2 <= q,
        q + 1 < ts.len(),
        tk(ts, 0) is Let,
        tk(ts, 1) is Ident,
        forall|k: int| 2 <= k < q ==> #[trigger] tk(ts, k) is Ident,
        tk(ts, q) is Eq,
        p_expr(ts, q + 1, 0) matches Ok((_, j)) && j == ts.len(),
    ensures
        decl_tokens(ts) matches Ok(d) && d.inner matches SDecl::Let(name, ty, ps, body) && name.inner
            == tk(ts, 1)->Ident_0 && ty is None && ps.len() == q - 2 && body == p_expr(
            ts,
            q + 1,
            0,
        )->Ok_0.0,
{
    if q > 2 {
        assert(tk(ts, 2) is Ident);
    }
    assert(p_annot(ts, 2) == Ok::<(Option<SType>, int), int>((None, 2)));
    lemma_plain_params(ts, 2, q);
}

fn parse_params(toks: &Vec<Spanned<Token>>, i: usize) -> (r: Result<
    (Vec<(Spanned<String>, Option<Type>)>, usize),
    usize,
>)
    requires
        i <= toks.len(),
    ensures
        match r {
            Ok((v, j)) => p_params(toks_model(toks@), i as int) == Ok::<
                (Seq<(Spanned<Seq<char>>, Option<SType>)>, int),
                int,
            >((params_model(v@), j as int)) && j <= toks.len(),
            Err(p) => p_params(toks_model(toks@), i as int) == Err::<
                (Seq<(Spanned<Seq<char>>, Option<SType>)>, int),
                int,
            >(p as int),
        },
    decreases toks.len() - i,
{
    let ghost ts = toks_model(toks@);
    if i < toks.len() {
        assert(tk(ts, i as int) == toks@[i as int].inner@);
        match &toks[i].inner {
            Token::Ident(x) => {
                let name = Spanned { inner: x.clone(), span: span_of(toks, i, i + 1) };
                match parse_annot(toks, i + 1) {
                    Ok((ty, m)) => if i < m && m <= toks.len() {
                        match parse_params(toks, m) {
                            Ok((rest, j)) => {
                                let ghost rest_m = params_model(rest@);
                                let item = (name, ty);
                                let ghost im = param_model(item);
                                let mut v = rest;
                                v.insert(0, item);
                                proof {
                                    assert(params_model(v@) =~= seq![im] + rest_m);
                                }
                                Ok((v, j))
                            },
                            Err(e) => Err(e),
                        }
                    } else {
                        Err(m)
                    },
                    Err(e) => Err(e),
                }
            },
            _ => {
                proof {
                    assert(params_model(Seq::empty()) =~= Seq::empty());
                }
                Ok((Vec::new(), i))
            },
        }
    } else {
        proof {
            assert(params_model(Seq::empty()) =~= Seq::empty());
        }
        Ok((Vec::new(), i))
    }
}

fn parse_let_decl(toks: &Vec<Spanned<Token>>) -> (r: Result<(Spanned<Decl>, usize), usize>)
    ensures
        match r {
            Ok((d, j)) => p_let_decl(toks_model(toks@)) == Ok::<(Spanned<SDecl>, int), int>(
                (dmodel(d), j as int),
            ),
            Err(p) => p_let_decl(toks_model(toks@)) == Err::<(Spanned<SDecl>, int), int>(p as int),
        },
{
    let ghost ts = toks_model(toks@);
    if toks.len() <= 1 {
        return Err(1);
    }
    assert(tk(ts, 1) == toks@[1].inner@);
    let name = match &toks[1].inner {
        Token::Ident(x) => Spanned { inner: x.clone(), span: span_of(toks, 1, 2) },
        _ => {
            return Err(1);
        },
    };
    match parse_annot(toks, 2) {
        Ok((ty, m)) => if 2 <= m && m <= toks.len() {
            match parse_params(toks, m) {
                Ok((ps, q)) => if q < toks.len() && matches!(toks[q].inner, Token::Eq) {
                    assert(tk(ts, q as int) == toks@[q as int].inner@);
                    match parse_expr(toks, q + 1, 0) {
                        Ok((e, j)) => if 0 < j && j <= toks.len() {
                            let span = span_of(toks, 0, j);
                            Ok((Spanned { inner: Decl::Let(name, ty, ps, Box::new(e)), span }, j))
                        } else {
                            Err(j)
                        },
                        Err(p) => Err(p),
                    }
                } else {
                    proof {
                        if q < toks.len() {
                            assert(tk(ts, q as int) == toks@[q as int].inner@);
                        }
                    }
                    Err(q)
                },
                Err(p) => Err(p),
            }
        } else {
            Err(m)
        },
        Err(p) => Err(p),
    }
}

/// The whole tokens as an expression, or the position of the first token
/// that is wrong.
fn parse_all(toks: &Vec<Spanned<Token>>) -> (r: Result<Spanned<PExpr>, usize>)
    ensures
        match parse_tokens(toks_model(toks@)) {
            Ok(e) => r matches Ok(x) && pmodel(x) == e,
            Err(p) => r matches Err(q) && q == p,
        },
{
    match parse_expr(toks, 0, 0) {
        Ok((e, j)) => if j == toks.len() {
            Ok(e)
        } else {
            Err(j)
        },
        Err(p) => Err(p),
    }
}

/// Reads a declaration: a definition `let name [: type] params = body`, or
/// an expression.  Positions are character indices into `src`.  Errors are
/// reported as [`crate::parser::parse`] reports them.
pub fn parse_decl(src: &str) -> (r: Result<Spanned<Decl>, Vec<ParseError>>)
    ensures
        match lex(src@) {
            Err(p) => r matches Err(es) && es.len() == 1 && reports(
                es[0],
                (p as usize, (p + 1) as usize),
                Some(seq![src@[p]]),
            ),
            Ok(ts) => match decl_tokens(ts) {
                Ok(d) => r matches Ok(x) && dmodel(x) == d,
                Err(p) => r matches Err(es) && es.len() == 1 && reports(
                    es[0],
                    error_at(ts, p, src@.len() as int).0,
                    error_at(ts, p, src@.len() as int).1,
                ),
            },
        },
{
    let toks = match lexer(src) {
        Ok(t) => t,
        Err(e) => {
            let es = vec![e];
            assert(es@ =~= seq![e]);
            return Err(es);
        },
    };
    let ghost ts = toks_model(toks@);
    let n = src.unicode_len();
    let starts_let = toks.len() > 0 && matches!(toks[0].inner, Token::Let);
    proof {
        if toks.len() > 0 {
            assert(tk(ts, 0) == toks@[0].inner@);
        }
    }
    let outcome: Result<Spanned<Decl>, usize> = if starts_let {
        match parse_let_decl(&toks) {
            Ok((d, j)) => if j == toks.len() {
                Ok(d)
            } else {
                Err(j)
            },
            Err(p1) => match parse_all(&toks) {
                Ok(e) => {
                    let span = e.span;
                    Ok(Spanned { inner: Decl::Expr(e), span })
                },
                Err(p2) => Err(if p1 >= p2 { p1 } else { p2 }),
            },
        }
    } else {
        match parse_all(&toks) {
            Ok(e) => {
                let span = e.span;
                Ok(Spanned { inner: Decl::Expr(e), span })
            },
            Err(p) => Err(p),
        }
    };
    match outcome {
        Ok(d) => Ok(d),
        Err(p) => {
            let e = error_at_exec(&toks, p, n);
            let es = vec![e];
            assert(es@ =~= seq![e]);
            Err(es)
        },
    }
}

} // verus!
