//! The whole compiler: source text to its type and a JavaScript program that
//! prints the value of the expression.
use vstd::prelude::*;
use crate::ast::{
    expr_size, lemma_pmodel_term, lemma_printable_at, lower, sp_term, Ast, CpsAst, SType, SVal, Term, Type, TypeEnv,
    TypeError, Value,
};
use crate::codegen::{gen_program, js};
use crate::cps::{cps, expr_to_cps};
use crate::lexer::ParseError;
use crate::parser::{parse, parse_errors, parsed};
use crate::subst::{apply_bindings, clash, derived, head_clash, is_mgu};
use crate::typecheck::{infer, lemma_term_size, term_size, typecheck, Inferred};
use vstd::string::StringExecFns;

verus! {

/// The largest number of expression nodes a program may have, so that the
/// numbering of type variables and of continuations cannot overflow.
pub const MAX_NODES: usize = 0x0fff_ffff;

/// Why a program is not compiled.
#[derive(Debug)]
pub enum CompileError {
    /// The text cannot be read.
    Parse(Vec<ParseError>),
    /// The expression has no type.
    Type(TypeError),
    /// The expression has more than [`MAX_NODES`] nodes.
    TooLarge,
}

/// The program for a tree: strict mode, then its continuation-passing form,
/// which passes the value to `console.log`.
pub open spec fn program_text(t: Term) -> Seq<char> {
    "\"use strict\";\n"@ + js(cps(t, SVal::Var("console.log"@), 0).0)
}

/// What compiling the tree `t` gives: its type and program, or why it is
/// rejected.  Fresh type variables are numbered from 1.
pub open spec fn compiles_to(t: Term, r: Result<(Type, String), CompileError>) -> bool {
    if term_size(t) > MAX_NODES {
        r matches Err(CompileError::TooLarge)
    } else {
        match infer(t, Map::empty(), 1) {
            Inferred::Typed(ty, cs, _) => r matches Ok((u, out)) && (exists|
                bs: Seq<(Seq<char>, SType)>,
            | is_mgu(bs, cs) && u@ == apply_bindings(bs, ty)) && out@ == program_text(t),
            Inferred::Unbound(x) => r matches Err(CompileError::Type(TypeError::UnboundVariable(y)))
                && y@ == x,
            Inferred::Mismatch(cs) => r matches Err(
                CompileError::Type(TypeError::TypeMismatch { expected, found }),
            ) && clash(expected@, found@) && head_clash(expected@, found@) && derived(
                cs,
                (expected@, found@),
            ),
        }
    }
}

/// Reads, type-checks and translates a program.
pub fn compile(src: &str) -> (r: Result<(Type, String), CompileError>)
    ensures
        match parsed(src@) {
            None => r matches Err(CompileError::Parse(es)) && parse_errors(src@, es@),
            Some(e) => compiles_to(sp_term(e), r),
        },
{
    let p = match parse(src) {
        Ok(p) => p,
        Err(es) => {
            return Err(CompileError::Parse(es));
        },
    };
    proof {
        lemma_pmodel_term(p);
        lemma_term_size(p.inner);
    }
    match expr_size(&p.inner) {
        Some(n) => {
            if n > MAX_NODES {
                return Err(CompileError::TooLarge);
            }
        },
        None => {
            return Err(CompileError::TooLarge);
        },
    }
    let mut ast = Ast::new();
    let id = lower(&mut ast, p);
    let env = TypeEnv::new();
    let mut counter: i32 = 1;
    let ty = match typecheck(&ast, id, &env, &mut counter) {
        Ok(ty) => ty,
        Err(err) => {
            return Err(CompileError::Type(err));
        },
    };
    let mut cps_ast = CpsAst::new();
    let logger = cps_ast.push_val(Value::Var(String::from_str("console.log")), (0, 0));
    let mut next: u64 = 0;
    let root = expr_to_cps(&ast, id, &mut cps_ast, logger, &mut next);
    proof {
        lemma_printable_at(cps_ast, root as int);
    }
    let out = gen_program(&cps_ast, root);
    Ok((ty, out))
}

} // verus!
