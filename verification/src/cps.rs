//! Conversion of expressions to continuation-passing style.
use vstd::prelude::*;
use crate::ast::{
    bad_tree, cexpr_at, cnode_printable, cnode_wf, lemma_printable_at, printable, printable_at, conts_at, funs_at, node_wf, subtree_spans, term_at, val_at, vals_at, Ast, BinOp, CExpr, CodeLoc, CpsAst,
    Expr, ExprId, SCExpr, SVal, Term, Value, ValueId,
};
use crate::text::{decimal, lemma_decimal_injective, push_char, u64_to_decimal};

use crate::typecheck::{is_comparison_op, spec_is_comparison, term_size};

verus! {

/// `b` extends `a`: the expressions and values of `a` keep their indices.
pub open spec fn grows(a: CpsAst, b: CpsAst) -> bool {
    &&& a.exprs@.len() <= b.exprs@.len()
    &&& a.vals@.len() <= b.vals@.len()
    &&& forall|i: int| 0 <= i < a.exprs@.len() ==> #[trigger] b.exprs@[i] == a.exprs@[i]
    &&& forall|i: int| 0 <= i < a.vals@.len() ==> #[trigger] b.vals@[i] == a.vals@[i]
}

/// `b` keeps the positions that `a` records, and every expression and value
/// that `b` adds has one of the positions in `t`.
pub open spec fn spans_within(a: CpsAst, b: CpsAst, t: Set<CodeLoc>) -> bool {
    &&& a.spans@.len() <= b.spans@.len()
    &&& a.val_spans@.len() <= b.val_spans@.len()
    &&& forall|i: int| 0 <= i < a.spans@.len() ==> #[trigger] b.spans@[i] == a.spans@[i]
    &&& forall|i: int| 0 <= i < a.val_spans@.len() ==> #[trigger] b.val_spans@[i] == a.val_spans@[i]
    &&& forall|i: int| a.spans@.len() <= i < b.spans@.len() ==> t.contains(#[trigger] b.spans@[i])
    &&& forall|i: int|
        a.val_spans@.len() <= i < b.val_spans@.len() ==> t.contains(#[trigger] b.val_spans@[i])
}

/// Adding to `b` entries with positions in `u`, a part of `t`, keeps the
/// positions of what was added since `a` within `t`.
pub proof fn lemma_spans_step(a: CpsAst, b: CpsAst, c: CpsAst, t: Set<CodeLoc>, u: Set<CodeLoc>)
    requires
        spans_within(a, b, t),
        spans_within(b, c, u),
        u.subset_of(t),
    ensures
        spans_within(a, c, t),
{
    assert forall|i: int| a.spans@.len() <= i < c.spans@.len() implies t.contains(
        #[trigger] c.spans@[i],
    ) by {
        if i < b.spans@.len() {
            assert(c.spans@[i] == b.spans@[i]);
        } else {
            assert(u.contains(c.spans@[i]));
        }
    }
    assert forall|i: int| a.val_spans@.len() <= i < c.val_spans@.len() implies t.contains(
        #[trigger] c.val_spans@[i],
    ) by {
        if i < b.val_spans@.len() {
            assert(c.val_spans@[i] == b.val_spans@[i]);
        } else {
            assert(u.contains(c.val_spans@[i]));
        }
    }
}

/// The positions below a node are among its own.
pub proof fn lemma_subtree_parts(exprs: Seq<Expr>, spans: Seq<CodeLoc>, id: int)
    requires
        0 <= id < exprs.len(),
        node_wf(exprs[id], id),
    ensures
        subtree_spans(exprs, spans, id).contains(spans[id]),
        set![spans[id]].subset_of(subtree_spans(exprs, spans, id)),
        match exprs[id] {
            Expr::If(a, b, c) => subtree_spans(exprs, spans, a as int).subset_of(
                subtree_spans(exprs, spans, id),
            ) && subtree_spans(exprs, spans, b as int).subset_of(subtree_spans(exprs, spans, id))
                && subtree_spans(exprs, spans, c as int).subset_of(subtree_spans(exprs, spans, id)),
            Expr::LetIn(_, _, a, b) | Expr::App(a, b) | Expr::Sequence(a, b) | Expr::BinOp(_, a, b) =>
                subtree_spans(exprs, spans, a as int).subset_of(subtree_spans(exprs, spans, id))
                && subtree_spans(exprs, spans, b as int).subset_of(subtree_spans(exprs, spans, id)),
            Expr::Fn(_, _, a) | Expr::Neg(a) => subtree_spans(exprs, spans, a as int).subset_of(
                subtree_spans(exprs, spans, id),
            ),
            _ => true,
        },
{
}

/// Extending an arena keeps the tree of every index it had.
pub proof fn lemma_cexpr_stable(a: CpsAst, b: CpsAst, id: int)
    requires
        a.wf(),
        grows(a, b),
        0 <= id < a.exprs@.len(),
    ensures
        cexpr_at(b.exprs@, b.vals@, id) == cexpr_at(a.exprs@, a.vals@, id),
    decreases id + 1, 0int,
{
    let e = a.exprs@[id];
    assert(b.exprs@[id] == e);
    assert(cnode_wf(e, id, a.vals@.len() as int));
    assert(cnode_wf(e, id, b.vals@.len() as int));
    match e {
        CExpr::App(f, xs) => {
            assert(b.vals@[f as int] == a.vals@[f as int]);
            assert(vals_at(b.vals@, xs@) =~= vals_at(a.vals@, xs@));
        },
        CExpr::Fix(fs, body) => {
            lemma_cexpr_stable(a, b, body as int);
            lemma_funs_stable(a, b, fs@, id);
        },
        CExpr::PrimOp(op, ins, outs, cs) => {
            assert(vals_at(b.vals@, ins@) =~= vals_at(a.vals@, ins@));
            assert(vals_at(b.vals@, outs@) =~= vals_at(a.vals@, outs@));
            lemma_conts_stable(a, b, cs@, id);
        },
        CExpr::Switch(v, c) => {
            assert(b.vals@[v as int] == a.vals@[v as int]);
            lemma_cexpr_stable(a, b, c as int);
        },
    }
}

pub proof fn lemma_funs_stable(a: CpsAst, b: CpsAst, fs: Seq<(usize, Vec<usize>, usize)>, id: int)
    requires
        a.wf(),
        grows(a, b),
        0 <= id < a.exprs@.len(),
        forall|j: int|
            0 <= j < fs.len() ==> {
                &&& (#[trigger] fs[j]).0 < a.vals@.len()
                &&& fs[j].2 < id
                &&& forall|l: int| 0 <= l < fs[j].1@.len() ==> #[trigger] fs[j].1@[l] < a.vals@.len()
            },
    ensures
        funs_at(b.exprs@, b.vals@, fs, id) == funs_at(a.exprs@, a.vals@, fs, id),
    decreases id, fs.len(),
{
    if fs.len() > 0 {
        let f = fs.last();
        assert(fs[fs.len() - 1] == f);
        lemma_funs_stable(a, b, fs.drop_last(), id);
        lemma_cexpr_stable(a, b, f.2 as int);
        assert(b.vals@[f.0 as int] == a.vals@[f.0 as int]);
        assert(vals_at(b.vals@, f.1@) =~= vals_at(a.vals@, f.1@));
    }
}

pub proof fn lemma_conts_stable(a: CpsAst, b: CpsAst, cs: Seq<usize>, id: int)
    requires
        a.wf(),
        grows(a, b),
        0 <= id < a.exprs@.len(),
        forall|j: int| 0 <= j < cs.len() ==> #[trigger] cs[j] < id,
    ensures
        conts_at(b.exprs@, b.vals@, cs, id) == conts_at(a.exprs@, a.vals@, cs, id),
    decreases id, cs.len(),
{
    if cs.len() > 0 {
        let c = cs.last();
        assert(cs[cs.len() - 1] == c);
        lemma_conts_stable(a, b, cs.drop_last(), id);
        lemma_cexpr_stable(a, b, c as int);
    }
}

/// The name of the fresh variable with index `n`: `k` and the decimal `n`.
pub open spec fn kname(n: int) -> Seq<char> {
    seq!['k'] + decimal(n as nat)
}

/// Fresh continuation variables with different indices have different
/// names, so the variables that a conversion introduces never clash.
pub proof fn law_fresh_names_distinct(m: int, n: int)
    requires
        0 <= m,
        0 <= n,
        m != n,
    ensures
        kname(m) != kname(n),
{
    if kname(m) == kname(n) {
        assert(decimal(m as nat) =~= kname(m).subrange(1, kname(m).len() as int));
        assert(decimal(n as nat) =~= kname(n).subrange(1, kname(n).len() as int));
        lemma_decimal_injective(m as nat, n as nat);
    }
}

/// The fresh variable with index `n`.
pub open spec fn kvar(n: int) -> SVal {
    SVal::Var(kname(n))
}

/// Calls `k` with the one argument `v`.
pub open spec fn app1(k: SVal, v: SVal) -> SCExpr {
    SCExpr::App(k, seq![v])
}

/// Defines one function, then runs `e`.
pub open spec fn fix1(f: SVal, ps: Seq<SVal>, body: SCExpr, e: SCExpr) -> SCExpr {
    SCExpr::Fix(seq![(f, ps, body)], Box::new(e))
}

/// The number 0 and the number 1.
pub open spec fn num0() -> SVal {
    SVal::Num(seq!['0'])
}

pub open spec fn num1() -> SVal {
    SVal::Num(seq!['1'])
}

/// The primitive operation of a binary operator whose operands are bound to
/// the fresh variables `n + 1` and `n + 3`, passing its outcome to `k`, and
/// the next fresh index.  A comparison chooses between passing 0 and 1.
pub open spec fn bin_prim(op: BinOp, k: SVal, n: int) -> (SCExpr, int) {
    if spec_is_comparison(op) {
        (
            SCExpr::PrimOp(
                op,
                seq![kvar(n + 1), kvar(n + 3)],
                Seq::empty(),
                seq![app1(k, num0()), app1(k, num1())],
            ),
            n + 4,
        )
    } else {
        (
            SCExpr::PrimOp(
                op,
                seq![kvar(n + 1), kvar(n + 3)],
                seq![kvar(n + 4)],
                seq![app1(k, kvar(n + 4))],
            ),
            n + 5,
        )
    }
}

/// Evaluates the left operand (`lc`, continuing with `k<n>`), then the right
/// one (`rc`, continuing with `k<n+2>`), then `prim`.
pub open spec fn bin_wrap(n: int, prim: SCExpr, rc: SCExpr, lc: SCExpr) -> SCExpr {
    fix1(kvar(n), seq![kvar(n + 1)], fix1(kvar(n + 2), seq![kvar(n + 3)], prim, rc), lc)
}

/// Evaluates the function (`rand`, continuing with `k<n>`), then the
/// argument (`rator`, continuing with `k<n+2>`), then calls the function with
/// the argument and the continuation `k`.
pub open spec fn app_wrap(n: int, k: SVal, rator: SCExpr, rand: SCExpr) -> SCExpr {
    fix1(
        kvar(n),
        seq![kvar(n + 1)],
        fix1(kvar(n + 2), seq![kvar(n + 3)], SCExpr::App(kvar(n + 1), seq![kvar(n + 3), k]), rator),
        rand,
    )
}

/// The continuation-passing form of `t` that passes its value to `k`, with
/// fresh variables numbered from `n`, and the next unused number.  A `let`
/// is the application of a function to the bound value, and a negation is
/// the subtraction from 0.
pub open spec fn cps(t: Term, k: SVal, n: int) -> (SCExpr, int)
    decreases t,
{
    match t {
        Term::Var(p) => (app1(k, SVal::Var(p)), n),
        Term::Num(x) => (app1(k, SVal::Num(x)), n),
        Term::Bool(b) => (app1(k, if b { num1() } else { num0() }), n),
        Term::Unit => (app1(k, num0()), n),
        Term::If(c, a, b) => {
            let (else_c, n1) = cps(*b, k, n + 2);
            let (then_c, n2) = cps(*a, k, n1);
            let (cond_c, n3) = cps(*c, kvar(n), n2);
            (
                fix1(
                    kvar(n),
                    seq![kvar(n + 1)],
                    SCExpr::PrimOp(
                        BinOp::Eq,
                        seq![kvar(n + 1), num1()],
                        Seq::empty(),
                        seq![else_c, then_c],
                    ),
                    cond_c,
                ),
                n3,
            )
        },
        Term::App(f, a) => {
            let (rator, n1) = cps(*a, kvar(n + 2), n + 4);
            let (rand, n2) = cps(*f, kvar(n), n1);
            (app_wrap(n, k, rator, rand), n2)
        },
        Term::LetIn(x, _, body, rest) => {
            let (rator, n1) = cps(*body, kvar(n + 2), n + 4);
            let (inner, n2) = cps(*rest, kvar(n1 + 1), n1 + 2);
            let rand = fix1(kvar(n1), seq![SVal::Var(x), kvar(n1 + 1)], inner, app1(kvar(n), kvar(n1)));
            (app_wrap(n, k, rator, rand), n2)
        },
        Term::Fn(x, _, body) => {
            let (b, n1) = cps(*body, kvar(n + 1), n + 2);
            (fix1(kvar(n), seq![SVal::Var(x), kvar(n + 1)], b, app1(k, kvar(n))), n1)
        },
        Term::Sequence(l, r) => {
            let (rc, n1) = cps(*r, k, n + 2);
            let (lc, n2) = cps(*l, kvar(n), n1);
            (fix1(kvar(n), seq![kvar(n + 1)], rc, lc), n2)
        },
        Term::BinOp(op, l, r) => {
            let (p, m) = bin_prim(op, k, n);
            let (rc, n1) = cps(*r, kvar(n + 2), m);
            let (lc, n2) = cps(*l, kvar(n), n1);
            (bin_wrap(n, p, rc, lc), n2)
        },
        Term::Neg(e) => {
            let (p, m) = bin_prim(BinOp::Minus, k, n);
            let (rc, n1) = cps(*e, kvar(n + 2), m);
            (bin_wrap(n, p, rc, app1(kvar(n), num0())), n1)
        },
    }
}


/// Appending to the arena extends it.
pub proof fn lemma_grows_trans(a: CpsAst, b: CpsAst, c: CpsAst)
    requires
        grows(a, b),
        grows(b, c),
    ensures
        grows(a, c),
{
    assert forall|i: int| 0 <= i < a.exprs@.len() implies #[trigger] c.exprs@[i] == a.exprs@[i] by {
        assert(c.exprs@[i] == b.exprs@[i]);
    }
    assert forall|i: int| 0 <= i < a.vals@.len() implies #[trigger] c.vals@[i] == a.vals@[i] by {
        assert(c.vals@[i] == b.vals@[i]);
    }
}

/// Adds the fresh variable `k<counter>` and increments the counter.
fn fresh(counter: &mut u64, cps_ast: &mut CpsAst, span: CodeLoc) -> (v: ValueId)
    requires
        old(cps_ast).wf(),
        old(cps_ast).vals.len() < usize::MAX,
        *old(counter) < u64::MAX,
    ensures
        spans_within(*old(cps_ast), *final(cps_ast), set![span]),
        final(cps_ast).wf(),
        grows(*old(cps_ast), *final(cps_ast)),
        final(cps_ast).exprs@ == old(cps_ast).exprs@,
        final(cps_ast).vals@.len() == old(cps_ast).vals@.len() + 1,
        v == old(cps_ast).vals.len(),
        val_at(final(cps_ast).vals@, v as int) == kvar(*old(counter) as int),
        *final(counter) == *old(counter) + 1,
        printable(*old(cps_ast)) ==> printable(*final(cps_ast)),
{
    let ghost s0 = *cps_ast;
    let mut name = String::new();
    push_char(&mut name, 'k');
    let digits = u64_to_decimal(*counter);
    name.append(digits.as_str());
    proof {
        assert(name@ =~= kname(*old(counter) as int));
    }
    *counter = *counter + 1;
    cps_ast.push_val(Value::Var(name), span)
}

/// Adds `f(args)`.
fn emit_app(cps_ast: &mut CpsAst, f: ValueId, args: Vec<ValueId>, span: CodeLoc) -> (id: ExprId)
    requires
        old(cps_ast).wf(),
        old(cps_ast).exprs.len() < usize::MAX,
        f < old(cps_ast).vals.len(),
        forall|j: int| 0 <= j < args@.len() ==> #[trigger] args@[j] < old(cps_ast).vals.len(),
    ensures
        final(cps_ast).exprs@ == old(cps_ast).exprs@.push(CExpr::App(f, args)),
        final(cps_ast).spans@ == old(cps_ast).spans@.push(span),
        final(cps_ast).val_spans@ == old(cps_ast).val_spans@,
        spans_within(*old(cps_ast), *final(cps_ast), set![span]),
        final(cps_ast).wf(),
        grows(*old(cps_ast), *final(cps_ast)),
        final(cps_ast).vals@ == old(cps_ast).vals@,
        final(cps_ast).exprs@.len() == old(cps_ast).exprs@.len() + 1,
        id == old(cps_ast).exprs.len(),
        cexpr_at(final(cps_ast).exprs@, final(cps_ast).vals@, id as int) == SCExpr::App(
            val_at(old(cps_ast).vals@, f as int),
            vals_at(old(cps_ast).vals@, args@),
        ),
        printable(*old(cps_ast)) ==> printable(*final(cps_ast)),
{
    cps_ast.push(CExpr::App(f, args), span)
}

/// Adds the definition of one function `f(params) { body }`, then `e`.
fn emit_fix1(
    cps_ast: &mut CpsAst,
    f: ValueId,
    params: Vec<ValueId>,
    body: ExprId,
    e: ExprId,
    span: CodeLoc,
) -> (id: ExprId)
    requires
        old(cps_ast).wf(),
        old(cps_ast).exprs.len() < usize::MAX,
        f < old(cps_ast).vals.len(),
        forall|j: int| 0 <= j < params@.len() ==> #[trigger] params@[j] < old(cps_ast).vals.len(),
        body < old(cps_ast).exprs.len(),
        e < old(cps_ast).exprs.len(),
        old(cps_ast).vals@[f as int] is Var,
        forall|j: int| 0 <= j < params@.len() ==> old(cps_ast).vals@[#[trigger] params@[j] as int] is Var,
    ensures
        spans_within(*old(cps_ast), *final(cps_ast), set![span]),
        printable(*old(cps_ast)) ==> printable(*final(cps_ast)),
        final(cps_ast).wf(),
        grows(*old(cps_ast), *final(cps_ast)),
        final(cps_ast).vals@ == old(cps_ast).vals@,
        final(cps_ast).exprs@.len() == old(cps_ast).exprs@.len() + 1,
        id == old(cps_ast).exprs.len(),
        cexpr_at(final(cps_ast).exprs@, final(cps_ast).vals@, id as int) == fix1(
            val_at(old(cps_ast).vals@, f as int),
            vals_at(old(cps_ast).vals@, params@),
            cexpr_at(old(cps_ast).exprs@, old(cps_ast).vals@, body as int),
            cexpr_at(old(cps_ast).exprs@, old(cps_ast).vals@, e as int),
        ),
{
    let ghost s0 = *cps_ast;
    let ghost entry = (f, params, body);
    let fs = vec![(f, params, body)];
    proof {
        assert(fs@ == seq![entry]);
        assert(fs@[0] == entry);
    }
    let ghost node = CExpr::Fix(fs, e);
    let id = cps_ast.push(CExpr::Fix(fs, e), span);
    proof {
        let s1 = *cps_ast;
        if printable(s0) {
            assert(cnode_printable(node, s0.vals@));
        }
        lemma_cexpr_stable(s0, s1, body as int);
        lemma_cexpr_stable(s0, s1, e as int);
        assert(seq![entry].drop_last() =~= Seq::<(usize, Vec<usize>, usize)>::empty());
        assert(funs_at(s1.exprs@, s1.vals@, Seq::empty(), id as int) =~= Seq::<
            (SVal, Seq<SVal>, SCExpr),
        >::empty());
        assert(seq![entry].last() == entry);
        assert(funs_at(s1.exprs@, s1.vals@, seq![entry], id as int) =~= seq![
            (
                val_at(s0.vals@, f as int),
                vals_at(s0.vals@, entry.1@),
                cexpr_at(s0.exprs@, s0.vals@, body as int),
            ),
        ]);
    }
    id
}

/// Adds the primitive operation `op` with two continuations.
fn emit_primop2(
    cps_ast: &mut CpsAst,
    op: BinOp,
    ins: Vec<ValueId>,
    outs: Vec<ValueId>,
    c0: ExprId,
    c1: ExprId,
    span: CodeLoc,
) -> (id: ExprId)
    requires
        old(cps_ast).wf(),
        old(cps_ast).exprs.len() < usize::MAX,
        forall|j: int| 0 <= j < ins@.len() ==> #[trigger] ins@[j] < old(cps_ast).vals.len(),
        forall|j: int| 0 <= j < outs@.len() ==> #[trigger] outs@[j] < old(cps_ast).vals.len(),
        c0 < old(cps_ast).exprs.len(),
        c1 < old(cps_ast).exprs.len(),
    ensures
        spans_within(*old(cps_ast), *final(cps_ast), set![span]),
        final(cps_ast).wf(),
        grows(*old(cps_ast), *final(cps_ast)),
        final(cps_ast).vals@ == old(cps_ast).vals@,
        final(cps_ast).exprs@.len() == old(cps_ast).exprs@.len() + 1,
        id == old(cps_ast).exprs.len(),
        cexpr_at(final(cps_ast).exprs@, final(cps_ast).vals@, id as int) == SCExpr::PrimOp(
            op,
            vals_at(old(cps_ast).vals@, ins@),
            vals_at(old(cps_ast).vals@, outs@),
            seq![
                cexpr_at(old(cps_ast).exprs@, old(cps_ast).vals@, c0 as int),
                cexpr_at(old(cps_ast).exprs@, old(cps_ast).vals@, c1 as int),
            ],
        ),
        printable(*old(cps_ast)) ==> printable(*final(cps_ast)),
{
    let ghost s0 = *cps_ast;
    let cs = vec![c0, c1];
    proof {
        assert(cs@ =~= seq![c0, c1]);
    }
    let ghost node = CExpr::PrimOp(op, ins, outs, cs);
    let id = cps_ast.push(CExpr::PrimOp(op, ins, outs, cs), span);
    proof {
        let s1 = *cps_ast;

        lemma_cexpr_stable(s0, s1, c0 as int);
        lemma_cexpr_stable(s0, s1, c1 as int);
        assert(seq![c0, c1].drop_last() =~= seq![c0]);
        assert(seq![c0].drop_last() =~= Seq::<usize>::empty());
        assert(conts_at(s1.exprs@, s1.vals@, Seq::empty(), id as int) =~= Seq::<SCExpr>::empty());
        assert(conts_at(s1.exprs@, s1.vals@, seq![c0], id as int) =~= seq![
            cexpr_at(s0.exprs@, s0.vals@, c0 as int),
        ]);
        assert(conts_at(s1.exprs@, s1.vals@, seq![c0, c1], id as int) =~= seq![
            cexpr_at(s0.exprs@, s0.vals@, c0 as int),
            cexpr_at(s0.exprs@, s0.vals@, c1 as int),
        ]);
    }
    id
}

/// Adds the primitive operation `op` with one continuation.
fn emit_primop1(
    cps_ast: &mut CpsAst,
    op: BinOp,
    ins: Vec<ValueId>,
    outs: Vec<ValueId>,
    c0: ExprId,
    span: CodeLoc,
) -> (id: ExprId)
    requires
        old(cps_ast).wf(),
        old(cps_ast).exprs.len() < usize::MAX,
        forall|j: int| 0 <= j < ins@.len() ==> #[trigger] ins@[j] < old(cps_ast).vals.len(),
        forall|j: int| 0 <= j < outs@.len() ==> #[trigger] outs@[j] < old(cps_ast).vals.len(),
        c0 < old(cps_ast).exprs.len(),
        outs@.len() >= 1,
        old(cps_ast).vals@[outs@[0] as int] is Var,
    ensures
        spans_within(*old(cps_ast), *final(cps_ast), set![span]),
        final(cps_ast).wf(),
        grows(*old(cps_ast), *final(cps_ast)),
        final(cps_ast).vals@ == old(cps_ast).vals@,
        final(cps_ast).exprs@.len() == old(cps_ast).exprs@.len() + 1,
        id == old(cps_ast).exprs.len(),
        cexpr_at(final(cps_ast).exprs@, final(cps_ast).vals@, id as int) == SCExpr::PrimOp(
            op,
            vals_at(old(cps_ast).vals@, ins@),
            vals_at(old(cps_ast).vals@, outs@),
            seq![cexpr_at(old(cps_ast).exprs@, old(cps_ast).vals@, c0 as int)],
        ),
        printable(*old(cps_ast)) ==> printable(*final(cps_ast)),
{
    let ghost s0 = *cps_ast;
    let cs = vec![c0];
    proof {
        assert(cs@ =~= seq![c0]);
    }
    let ghost node = CExpr::PrimOp(op, ins, outs, cs);
    let id = cps_ast.push(CExpr::PrimOp(op, ins, outs, cs), span);
    proof {
        let s1 = *cps_ast;

        lemma_cexpr_stable(s0, s1, c0 as int);
        assert(seq![c0].drop_last() =~= Seq::<usize>::empty());
        assert(conts_at(s1.exprs@, s1.vals@, Seq::empty(), id as int) =~= Seq::<SCExpr>::empty());
        assert(conts_at(s1.exprs@, s1.vals@, seq![c0], id as int) =~= seq![
            cexpr_at(s0.exprs@, s0.vals@, c0 as int),
        ]);
    }
    id
}


/// The number literal made of the one digit `c`.
fn num_value(c: char) -> (v: Value)
    ensures
        v@ == SVal::Num(seq![c]),
{
    let mut text = String::new();
    push_char(&mut text, c);
    proof {
        assert(text@ =~= seq![c]);
    }
    Value::Num(text)
}

/// How much a conversion may add to the arena and to the counter.
pub open spec fn budget(t: Term) -> int {
    8 * term_size(t) as int
}

/// What a conversion of the expression `id` needs: room in the arena and in
/// the counter.
pub open spec fn cps_pre(ast: Ast, id: int, c: CpsAst, k: int, n: int) -> bool {
    &&& ast.wf()
    &&& 0 <= id < ast.exprs.len()
    &&& c.wf()
    &&& 0 <= k < c.vals.len()
    &&& c.exprs.len() + budget(term_at(ast.exprs@, id)) <= usize::MAX
    &&& c.vals.len() + budget(term_at(ast.exprs@, id)) <= usize::MAX
    &&& 0 <= n && n + budget(term_at(ast.exprs@, id)) <= u64::MAX
}

/// What a conversion of the expression `id` achieves: the arena `c1`
/// extends `c0` by at most the budget, `r` is its last expression, the tree
/// of `r` with the new
/// counter `n1` is the conversion of the expression, and every expression
/// and value added has the position of the expression or of one below it.
pub open spec fn cps_post(ast: Ast, id: int, c0: CpsAst, c1: CpsAst, k: int, n0: int, n1: int, r: int) -> bool {
    &&& c1.wf()
    &&& printable(c0) ==> printable(c1)
    &&& grows(c0, c1)
    &&& 0 <= r < c1.exprs.len()
    &&& r == c1.exprs.len() - 1
    &&& c1.exprs.len() <= c0.exprs.len() + budget(term_at(ast.exprs@, id))
    &&& c1.vals.len() <= c0.vals.len() + budget(term_at(ast.exprs@, id))
    &&& n0 <= n1 <= n0 + budget(term_at(ast.exprs@, id))
    &&& (cexpr_at(c1.exprs@, c1.vals@, r), n1) == cps(term_at(ast.exprs@, id), val_at(c0.vals@, k), n0)
    &&& spans_within(c0, c1, subtree_spans(ast.exprs@, ast.spans@, id))
}

/// Whether an expression node has no subexpression.
pub open spec fn is_leaf(e: Expr) -> bool {
    e is Var || e is Num || e is Bool || e is Unit
}

/// What converting a leaf adds to `c0`: one value, then the one expression
/// that passes it to `k`, both at `span`.
pub open spec fn leaf_added(c0: CpsAst, c1: CpsAst, k: int, span: CodeLoc) -> bool {
    &&& c1.vals@.len() == c0.vals@.len() + 1
    &&& c1.val_spans@ == c0.val_spans@.push(span)
    &&& c1.exprs@.len() == c0.exprs@.len() + 1
    &&& c1.spans@ == c0.spans@.push(span)
    &&& c1.exprs@.last() matches CExpr::App(f, xs) && f == k && xs@ == seq![c0.vals@.len() as usize]
}

/// What a conversion produces into an arena whose nodes can all be printed
/// can be printed too: every node it reaches is well formed, names its
/// functions, parameters and results by variables, and gives each
/// comparison two branches, so code generation accepts it.
pub proof fn law_converted_printable(
    ast: Ast,
    id: int,
    c0: CpsAst,
    c1: CpsAst,
    k: int,
    n0: int,
    n1: int,
    r: int,
)
    requires
        cps_post(ast, id, c0, c1, k, n0, n1, r),
        printable(c0),
    ensures
        printable_at(c1.exprs@, c1.vals@, r),
{
    lemma_printable_at(c1, r);
}

/// Converts the expression `expr_id` of `ast` to continuation-passing form,
/// passing its value to the continuation `k`; fresh variables are numbered
/// from `*counter` on.  The new nodes are added to `cps_ast`, each with the
/// position of the expression it comes from, and the index of the root is
/// returned.
pub fn expr_to_cps(
    ast: &Ast,
    expr_id: ExprId,
    cps_ast: &mut CpsAst,
    k: ValueId,
    counter: &mut u64,
) -> (r: ExprId)
    requires
        cps_pre(*ast, expr_id as int, *old(cps_ast), k as int, *old(counter) as int),
    ensures
        cps_post(
            *ast,
            expr_id as int,
            *old(cps_ast),
            *final(cps_ast),
            k as int,
            *old(counter) as int,
            *final(counter) as int,
            r as int,
        ),
        is_leaf(ast.exprs@[expr_id as int]) ==> leaf_added(
            *old(cps_ast),
            *final(cps_ast),
            k as int,
            ast.spans@[expr_id as int],
        ),
    decreases expr_id, 2int,
{
    proof {
        assert(node_wf(ast.exprs@[expr_id as int], expr_id as int));
    }
    let span = ast.spans[expr_id];
    match &ast.exprs[expr_id] {
        Expr::Var(p) => {
            let ghost a0 = *cps_ast;
            let v = cps_ast.push_val(Value::Var(p.clone()), span);
            let ghost a1 = *cps_ast;
            let args = vec![v];
            proof {
                assert(args@ =~= seq![v]);
            }
            let r = emit_app(cps_ast, k, args, span);
            proof {
                assert(vals_at(cps_ast.vals@, seq![v]) =~= seq![SVal::Var(p@)]);
                lemma_spans_step(a0, a1, *cps_ast, set![span], set![span]);
                lemma_subtree_parts(ast.exprs@, ast.spans@, expr_id as int);
            }
            r
        },
        Expr::Num(x) => {
            let ghost a0 = *cps_ast;
            let v = cps_ast.push_val(Value::Num(x.clone()), span);
            let ghost a1 = *cps_ast;
            let args = vec![v];
            proof {
                assert(args@ =~= seq![v]);
            }
            let r = emit_app(cps_ast, k, args, span);
            proof {
                assert(vals_at(cps_ast.vals@, seq![v]) =~= seq![SVal::Num(x@)]);
                lemma_spans_step(a0, a1, *cps_ast, set![span], set![span]);
                lemma_subtree_parts(ast.exprs@, ast.spans@, expr_id as int);
            }
            r
        },
        Expr::Bool(b) => {
            let ghost a0 = *cps_ast;
            let v = cps_ast.push_val(num_value(if *b { '1' } else { '0' }), span);
            let ghost a1 = *cps_ast;
            let args = vec![v];
            proof {
                assert(args@ =~= seq![v]);
            }
            let r = emit_app(cps_ast, k, args, span);
            proof {
                assert(vals_at(cps_ast.vals@, seq![v]) =~= seq![if *b { num1() } else { num0() }]);
                lemma_spans_step(a0, a1, *cps_ast, set![span], set![span]);
                lemma_subtree_parts(ast.exprs@, ast.spans@, expr_id as int);
            }
            r
        },
        Expr::Unit => {
            let ghost a0 = *cps_ast;
            let v = cps_ast.push_val(num_value('0'), span);
            let ghost a1 = *cps_ast;
            let args = vec![v];
            proof {
                assert(args@ =~= seq![v]);
            }
            let r = emit_app(cps_ast, k, args, span);
            proof {
                assert(vals_at(cps_ast.vals@, seq![v]) =~= seq![num0()]);
                lemma_spans_step(a0, a1, *cps_ast, set![span], set![span]);
                lemma_subtree_parts(ast.exprs@, ast.spans@, expr_id as int);
            }
            r
        },
        Expr::If(cond, then, else_) => cps_if(ast, expr_id, *cond, *then, *else_, cps_ast, k, counter, span),
        Expr::App(f, arg) => cps_app(ast, expr_id, *f, *arg, cps_ast, k, counter, span),
        Expr::Fn(x, _, body) => cps_fn(ast, expr_id, x, *body, cps_ast, k, counter, span),
        Expr::Sequence(lhs, rhs) => cps_seq(ast, expr_id, *lhs, *rhs, cps_ast, k, counter, span),
        Expr::BinOp(op, lhs, rhs) => cps_binop(ast, expr_id, *op, Some(*lhs), *rhs, cps_ast, k, counter, span),
        Expr::Neg(e) => cps_binop(ast, expr_id, BinOp::Minus, None, *e, cps_ast, k, counter, span),
        Expr::LetIn(x, _, body, rest) => cps_let(ast, expr_id, x, *body, *rest, cps_ast, k, counter, span),
    }
}

/// The conversion of a conditional: the condition is passed to a
/// continuation that compares it with 1 and runs one branch or the other.
fn cps_if(
    ast: &Ast,
    expr_id: ExprId,
    cond: ExprId,
    then: ExprId,
    else_: ExprId,
    cps_ast: &mut CpsAst,
    k: ValueId,
    counter: &mut u64,
    span: CodeLoc,
) -> (r: ExprId)
    requires
        span == ast.spans@[expr_id as int],
        cps_pre(*ast, expr_id as int, *old(cps_ast), k as int, *old(counter) as int),
        ast.exprs@[expr_id as int] == Expr::If(cond, then, else_),
    ensures
        cps_post(
            *ast,
            expr_id as int,
            *old(cps_ast),
            *final(cps_ast),
            k as int,
            *old(counter) as int,
            *final(counter) as int,
            r as int,
        ),
    decreases expr_id, 1int,
{
    proof {
        assert(node_wf(ast.exprs@[expr_id as int], expr_id as int));
    }
    let ghost s0 = *cps_ast;
    let ghost t = subtree_spans(ast.exprs@, ast.spans@, expr_id as int);
    proof {
        lemma_subtree_parts(ast.exprs@, ast.spans@, expr_id as int);
        assert(spans_within(s0, s0, t));
    }
    let ghost n = *counter as int;
    let ghost q1 = *cps_ast;
    let k1 = fresh(counter, cps_ast, span);
    proof {
        lemma_spans_step(s0, q1, *cps_ast, t, set![span]);
    }
    let ghost q2 = *cps_ast;
    let v1 = fresh(counter, cps_ast, span);
    proof {
        lemma_spans_step(s0, q2, *cps_ast, t, set![span]);
    }
    let ghost q3 = *cps_ast;
    let v2 = cps_ast.push_val(num_value('1'), span);
    proof {
        lemma_spans_step(s0, q3, *cps_ast, t, set![span]);
    }
    let ghost s1 = *cps_ast;
    proof {
        assert(s1.vals@[k as int] == s0.vals@[k as int]);
    }
    let ghost q4 = *cps_ast;
    let else_cps = expr_to_cps(ast, else_, cps_ast, k, counter);
    proof {
        lemma_spans_step(s0, q4, *cps_ast, t, subtree_spans(ast.exprs@, ast.spans@, else_ as int));
    }
    let ghost s2 = *cps_ast;
    let ghost q5 = *cps_ast;
    let then_cps = expr_to_cps(ast, then, cps_ast, k, counter);
    proof {
        lemma_spans_step(s0, q5, *cps_ast, t, subtree_spans(ast.exprs@, ast.spans@, then as int));
    }
    let ghost s3 = *cps_ast;
    let ghost q6 = *cps_ast;
    let cond_cps = expr_to_cps(ast, cond, cps_ast, k1, counter);
    proof {
        lemma_spans_step(s0, q6, *cps_ast, t, subtree_spans(ast.exprs@, ast.spans@, cond as int));
    }
    let ghost s4 = *cps_ast;
    proof {
        lemma_grows_trans(s1, s2, s3);
        lemma_grows_trans(s1, s3, s4);
        lemma_grows_trans(s2, s3, s4);
        lemma_cexpr_stable(s2, s4, else_cps as int);
        lemma_cexpr_stable(s3, s4, then_cps as int);
        assert(s2.vals@[k as int] == s1.vals@[k as int]);
        assert(s3.vals@[k1 as int] == s1.vals@[k1 as int]);
        assert(vals_at(s4.vals@, seq![v1, v2]) =~= seq![kvar(n + 1), num1()]);
        assert(vals_at(s4.vals@, Seq::<usize>::empty()) =~= Seq::<SVal>::empty());
    }
    let ins = vec![v1, v2];
    let outs: Vec<ValueId> = Vec::new();
    proof {
        assert(ins@ =~= seq![v1, v2]);
        assert(outs@ =~= Seq::<usize>::empty());
    }
    let ghost q7 = *cps_ast;
    let primop = emit_primop2(cps_ast, BinOp::Eq, ins, outs, else_cps, then_cps, span);
    proof {
        lemma_spans_step(s0, q7, *cps_ast, t, set![span]);
    }
    let ghost s5 = *cps_ast;
    proof {
        lemma_cexpr_stable(s4, s5, cond_cps as int);
        assert(vals_at(s5.vals@, seq![v1]) =~= seq![kvar(n + 1)]);
    }
    let params = vec![v1];
    proof {
        assert(params@ =~= seq![v1]);
    }
    let ghost q8 = *cps_ast;
    let r = emit_fix1(cps_ast, k1, params, primop, cond_cps, span);
    proof {
        lemma_spans_step(s0, q8, *cps_ast, t, set![span]);
    }
    proof {
        lemma_grows_trans(s0, s1, s4);
        lemma_grows_trans(s0, s4, s5);
        lemma_grows_trans(s0, s5, *cps_ast);
    }
    r
}


/// The conversion of an application: the function is passed to a
/// continuation `k<n>` that evaluates the argument and passes it to `k<n+2>`,
/// which calls the function with the argument and `k`.
fn cps_app(
    ast: &Ast,
    expr_id: ExprId,
    f: ExprId,
    arg: ExprId,
    cps_ast: &mut CpsAst,
    k: ValueId,
    counter: &mut u64,
    span: CodeLoc,
) -> (r: ExprId)
    requires
        span == ast.spans@[expr_id as int],
        cps_pre(*ast, expr_id as int, *old(cps_ast), k as int, *old(counter) as int),
        ast.exprs@[expr_id as int] == Expr::App(f, arg),
    ensures
        cps_post(
            *ast,
            expr_id as int,
            *old(cps_ast),
            *final(cps_ast),
            k as int,
            *old(counter) as int,
            *final(counter) as int,
            r as int,
        ),
    decreases expr_id, 1int,
{
    proof {
        assert(node_wf(ast.exprs@[expr_id as int], expr_id as int));
    }
    let ghost s0 = *cps_ast;
    let ghost t = subtree_spans(ast.exprs@, ast.spans@, expr_id as int);
    proof {
        lemma_subtree_parts(ast.exprs@, ast.spans@, expr_id as int);
        assert(spans_within(s0, s0, t));
    }
    let ghost n = *counter as int;
    let ghost q1 = *cps_ast;
    let k1 = fresh(counter, cps_ast, span);
    proof {
        lemma_spans_step(s0, q1, *cps_ast, t, set![span]);
    }
    let ghost q2 = *cps_ast;
    let fv = fresh(counter, cps_ast, span);
    proof {
        lemma_spans_step(s0, q2, *cps_ast, t, set![span]);
    }
    let ghost q3 = *cps_ast;
    let k2 = fresh(counter, cps_ast, span);
    proof {
        lemma_spans_step(s0, q3, *cps_ast, t, set![span]);
    }
    let ghost q4 = *cps_ast;
    let av = fresh(counter, cps_ast, span);
    proof {
        lemma_spans_step(s0, q4, *cps_ast, t, set![span]);
    }
    let args = vec![av, k];
    proof {
        assert(args@ =~= seq![av, k]);
    }
    let ghost q5 = *cps_ast;
    let app_ce = emit_app(cps_ast, fv, args, span);
    proof {
        lemma_spans_step(s0, q5, *cps_ast, t, set![span]);
    }
    let ghost s1 = *cps_ast;
    proof {
        assert(s1.vals@[k as int] == s0.vals@[k as int]);
    }
    let ghost q6 = *cps_ast;
    let rator_ce = expr_to_cps(ast, arg, cps_ast, k2, counter);
    proof {
        lemma_spans_step(s0, q6, *cps_ast, t, subtree_spans(ast.exprs@, ast.spans@, arg as int));
    }
    let ghost s2 = *cps_ast;
    let ghost q7 = *cps_ast;
    let rand_ce = expr_to_cps(ast, f, cps_ast, k1, counter);
    proof {
        lemma_spans_step(s0, q7, *cps_ast, t, subtree_spans(ast.exprs@, ast.spans@, f as int));
    }
    let ghost s3 = *cps_ast;
    proof {
        lemma_grows_trans(s1, s2, s3);
        lemma_cexpr_stable(s1, s3, app_ce as int);
        lemma_cexpr_stable(s2, s3, rator_ce as int);
        assert(s2.vals@[k1 as int] == s1.vals@[k1 as int]);
        assert(vals_at(s1.vals@, seq![av, k]) =~= seq![kvar(n + 3), val_at(s0.vals@, k as int)]);
    }
    let p1 = vec![av];
    proof {
        assert(p1@ =~= seq![av]);
        assert(vals_at(s3.vals@, seq![av]) =~= seq![kvar(n + 3)]);
    }
    let ghost q8 = *cps_ast;
    let inner = emit_fix1(cps_ast, k2, p1, app_ce, rator_ce, span);
    proof {
        lemma_spans_step(s0, q8, *cps_ast, t, set![span]);
    }
    let ghost s4 = *cps_ast;
    proof {
        lemma_cexpr_stable(s3, s4, rand_ce as int);
    }
    let p2 = vec![fv];
    proof {
        assert(p2@ =~= seq![fv]);
        assert(vals_at(s4.vals@, seq![fv]) =~= seq![kvar(n + 1)]);
    }
    let ghost q9 = *cps_ast;
    let r = emit_fix1(cps_ast, k1, p2, inner, rand_ce, span);
    proof {
        lemma_spans_step(s0, q9, *cps_ast, t, set![span]);
    }
    proof {
        lemma_grows_trans(s0, s1, s3);
        lemma_grows_trans(s0, s3, s4);
        lemma_grows_trans(s0, s4, *cps_ast);
    }
    r
}

/// The body of a function with parameter `x`, converted with the
/// continuation parameter `kp`; `fv` and `kp` are the two fresh variables
/// just taken for the function and its continuation.  Adds the parameter
/// `x` as a value first.
fn cps_fn_body(
    ast: &Ast,
    expr_id: ExprId,
    x: &String,
    body: ExprId,
    fv: ValueId,
    kp: ValueId,
    cps_ast: &mut CpsAst,
    counter: &mut u64,
    span: CodeLoc,
) -> (r: ExprId)
    requires
        ast.wf(),
        body < expr_id < ast.exprs.len(),
        old(cps_ast).wf(),
        kp < old(cps_ast).vals.len(),
        fv < old(cps_ast).vals.len(),
        old(cps_ast).exprs.len() + budget(term_at(ast.exprs@, body as int)) <= usize::MAX,
        old(cps_ast).vals.len() + 1 + budget(term_at(ast.exprs@, body as int)) <= usize::MAX,
        *old(counter) + budget(term_at(ast.exprs@, body as int)) <= u64::MAX,
    ensures
        final(cps_ast).wf(),
        printable(*old(cps_ast)) ==> printable(*final(cps_ast)),
        grows(*old(cps_ast), *final(cps_ast)),
        r < final(cps_ast).exprs.len(),
        final(cps_ast).exprs.len() <= old(cps_ast).exprs.len() + budget(term_at(ast.exprs@, body as int)),
        final(cps_ast).vals.len() <= old(cps_ast).vals.len() + 1 + budget(term_at(ast.exprs@, body as int)),
        *old(counter) <= *final(counter) <= *old(counter) + budget(term_at(ast.exprs@, body as int)),
        final(cps_ast).vals@[old(cps_ast).vals.len() as int]@ == SVal::Var(x@),
        final(cps_ast).vals@.len() > old(cps_ast).vals.len(),
        (cexpr_at(final(cps_ast).exprs@, final(cps_ast).vals@, r as int), *final(counter) as int)
            == cps(term_at(ast.exprs@, body as int), val_at(old(cps_ast).vals@, kp as int), *old(counter) as int),
        spans_within(
            *old(cps_ast),
            *final(cps_ast),
            set![span] + subtree_spans(ast.exprs@, ast.spans@, body as int),
        ),
    decreases expr_id, 0int,
{
    let ghost s0 = *cps_ast;
    let ghost t = set![span] + subtree_spans(ast.exprs@, ast.spans@, body as int);
    let xv = cps_ast.push_val(Value::Var(x.clone()), span);
    let ghost s1 = *cps_ast;
    proof {
        assert(s1.vals@[kp as int] == s0.vals@[kp as int]);
        assert(spans_within(s0, s1, set![span]));
        lemma_spans_step(s0, s0, s1, t, set![span]);
    }
    let b = expr_to_cps(ast, body, cps_ast, kp, counter);
    proof {
        assert(cps_ast.vals@[xv as int] == s1.vals@[xv as int]);
        lemma_grows_trans(s0, s1, *cps_ast);
        lemma_spans_step(s0, s1, *cps_ast, t, subtree_spans(ast.exprs@, ast.spans@, body as int));
    }
    b
}


/// The conversion of a function `fn x => body`: defines a function of `x`
/// and a continuation parameter, and passes it to `k`.
fn cps_fn(
    ast: &Ast,
    expr_id: ExprId,
    x: &String,
    body: ExprId,
    cps_ast: &mut CpsAst,
    k: ValueId,
    counter: &mut u64,
    span: CodeLoc,
) -> (r: ExprId)
    requires
        span == ast.spans@[expr_id as int],
        cps_pre(*ast, expr_id as int, *old(cps_ast), k as int, *old(counter) as int),
        ast.exprs@[expr_id as int] matches Expr::Fn(y, _, b) && y@ == x@ && b == body,
    ensures
        cps_post(
            *ast,
            expr_id as int,
            *old(cps_ast),
            *final(cps_ast),
            k as int,
            *old(counter) as int,
            *final(counter) as int,
            r as int,
        ),
    decreases expr_id, 1int,
{
    proof {
        assert(node_wf(ast.exprs@[expr_id as int], expr_id as int));
    }
    let ghost s0 = *cps_ast;
    let ghost t = subtree_spans(ast.exprs@, ast.spans@, expr_id as int);
    proof {
        lemma_subtree_parts(ast.exprs@, ast.spans@, expr_id as int);
        assert(spans_within(s0, s0, t));
    }
    let ghost n = *counter as int;
    let ghost q1 = *cps_ast;
    let fv = fresh(counter, cps_ast, span);
    proof {
        lemma_spans_step(s0, q1, *cps_ast, t, set![span]);
    }
    let ghost q2 = *cps_ast;
    let kp = fresh(counter, cps_ast, span);
    proof {
        lemma_spans_step(s0, q2, *cps_ast, t, set![span]);
    }
    let xv = cps_ast.vals.len();
    let ghost s1 = *cps_ast;
    let ghost q3 = *cps_ast;
    let b = cps_fn_body(ast, expr_id, x, body, fv, kp, cps_ast, counter, span);
    proof {
        lemma_spans_step(s0, q3, *cps_ast, t, set![span] + subtree_spans(ast.exprs@, ast.spans@, body as int));
    }
    let ghost sb = *cps_ast;
    let args = vec![fv];
    proof {
        assert(args@ =~= seq![fv]);
        assert(cps_ast.vals@[k as int] == s0.vals@[k as int]);
        assert(sb.vals@[kp as int] == s1.vals@[kp as int]);
        assert(sb.vals@[fv as int] == s1.vals@[fv as int]);
    }
    let ghost q4 = *cps_ast;
    let app = emit_app(cps_ast, k, args, span);
    proof {
        lemma_spans_step(s0, q4, *cps_ast, t, set![span]);
    }
    let ghost s2 = *cps_ast;
    proof {
        lemma_cexpr_stable(sb, s2, b as int);
    }
    let params = vec![xv, kp];
    proof {
        assert(params@ =~= seq![xv, kp]);
        assert(vals_at(s2.vals@, seq![xv, kp]) =~= seq![SVal::Var(x@), kvar(n + 1)]);
    }
    let ghost q5 = *cps_ast;
    let r = emit_fix1(cps_ast, fv, params, b, app, span);
    proof {
        lemma_spans_step(s0, q5, *cps_ast, t, set![span]);
    }
    proof {
        assert(vals_at(s2.vals@, seq![fv]) =~= seq![kvar(n)]);
        lemma_grows_trans(s0, s2, *cps_ast);
    }
    r
}

/// The conversion of `lhs; rhs`: `lhs` is passed to a continuation that
/// ignores it and runs `rhs`.
fn cps_seq(
    ast: &Ast,
    expr_id: ExprId,
    lhs: ExprId,
    rhs: ExprId,
    cps_ast: &mut CpsAst,
    k: ValueId,
    counter: &mut u64,
    span: CodeLoc,
) -> (r: ExprId)
    requires
        span == ast.spans@[expr_id as int],
        cps_pre(*ast, expr_id as int, *old(cps_ast), k as int, *old(counter) as int),
        ast.exprs@[expr_id as int] == Expr::Sequence(lhs, rhs),
    ensures
        cps_post(
            *ast,
            expr_id as int,
            *old(cps_ast),
            *final(cps_ast),
            k as int,
            *old(counter) as int,
            *final(counter) as int,
            r as int,
        ),
    decreases expr_id, 1int,
{
    proof {
        assert(node_wf(ast.exprs@[expr_id as int], expr_id as int));
    }
    let ghost s0 = *cps_ast;
    let ghost t = subtree_spans(ast.exprs@, ast.spans@, expr_id as int);
    proof {
        lemma_subtree_parts(ast.exprs@, ast.spans@, expr_id as int);
        assert(spans_within(s0, s0, t));
    }
    let ghost n = *counter as int;
    let ghost q1 = *cps_ast;
    let k1 = fresh(counter, cps_ast, span);
    proof {
        lemma_spans_step(s0, q1, *cps_ast, t, set![span]);
    }
    let ghost q2 = *cps_ast;
    let v1 = fresh(counter, cps_ast, span);
    proof {
        lemma_spans_step(s0, q2, *cps_ast, t, set![span]);
    }
    let ghost s1 = *cps_ast;
    proof {
        assert(s1.vals@[k as int] == s0.vals@[k as int]);
    }
    let ghost q3 = *cps_ast;
    let rc = expr_to_cps(ast, rhs, cps_ast, k, counter);
    proof {
        lemma_spans_step(s0, q3, *cps_ast, t, subtree_spans(ast.exprs@, ast.spans@, rhs as int));
    }
    let ghost s2 = *cps_ast;
    let ghost q4 = *cps_ast;
    let lc = expr_to_cps(ast, lhs, cps_ast, k1, counter);
    proof {
        lemma_spans_step(s0, q4, *cps_ast, t, subtree_spans(ast.exprs@, ast.spans@, lhs as int));
    }
    let ghost s3 = *cps_ast;
    proof {
        lemma_grows_trans(s1, s2, s3);
        lemma_cexpr_stable(s2, s3, rc as int);
        assert(s2.vals@[k1 as int] == s1.vals@[k1 as int]);
    }
    let params = vec![v1];
    proof {
        assert(params@ =~= seq![v1]);
        assert(vals_at(s3.vals@, seq![v1]) =~= seq![kvar(n + 1)]);
    }
    let ghost q5 = *cps_ast;
    let r = emit_fix1(cps_ast, k1, params, rc, lc, span);
    proof {
        lemma_spans_step(s0, q5, *cps_ast, t, set![span]);
    }
    proof {
        lemma_grows_trans(s0, s1, s3);
        lemma_grows_trans(s0, s3, *cps_ast);
    }
    r
}


/// The conversion of a binary operation (or of a negation, the subtraction
/// from 0, when `lhs` is `None`): the left operand is passed to `k<n>`, the
/// right one to `k<n+2>`, which applies the operator.
fn cps_binop(
    ast: &Ast,
    expr_id: ExprId,
    op: BinOp,
    lhs: Option<ExprId>,
    rhs: ExprId,
    cps_ast: &mut CpsAst,
    k: ValueId,
    counter: &mut u64,
    span: CodeLoc,
) -> (r: ExprId)
    requires
        span == ast.spans@[expr_id as int],
        cps_pre(*ast, expr_id as int, *old(cps_ast), k as int, *old(counter) as int),
        lhs matches Some(l) ==> ast.exprs@[expr_id as int] == Expr::BinOp(op, l, rhs),
        lhs is None ==> ast.exprs@[expr_id as int] == Expr::Neg(rhs) && op == BinOp::Minus,
    ensures
        cps_post(
            *ast,
            expr_id as int,
            *old(cps_ast),
            *final(cps_ast),
            k as int,
            *old(counter) as int,
            *final(counter) as int,
            r as int,
        ),
    decreases expr_id, 1int,
{
    proof {
        assert(node_wf(ast.exprs@[expr_id as int], expr_id as int));
    }
    let ghost s0 = *cps_ast;
    let ghost t = subtree_spans(ast.exprs@, ast.spans@, expr_id as int);
    proof {
        lemma_subtree_parts(ast.exprs@, ast.spans@, expr_id as int);
        assert(spans_within(s0, s0, t));
    }
    let ghost n = *counter as int;
    let ghost kv = val_at(s0.vals@, k as int);
    let ghost q1 = *cps_ast;
    let k1 = fresh(counter, cps_ast, span);
    proof {
        lemma_spans_step(s0, q1, *cps_ast, t, set![span]);
    }
    let ghost q2 = *cps_ast;
    let v1 = fresh(counter, cps_ast, span);
    proof {
        lemma_spans_step(s0, q2, *cps_ast, t, set![span]);
    }
    let ghost q3 = *cps_ast;
    let k2 = fresh(counter, cps_ast, span);
    proof {
        lemma_spans_step(s0, q3, *cps_ast, t, set![span]);
    }
    let ghost q4 = *cps_ast;
    let v2 = fresh(counter, cps_ast, span);
    proof {
        lemma_spans_step(s0, q4, *cps_ast, t, set![span]);
    }
    let ghost sf = *cps_ast;
    proof {
        assert(sf.vals@[k as int] == s0.vals@[k as int]);
    }
    let ins = vec![v1, v2];
    proof {
        assert(ins@ =~= seq![v1, v2]);
    }
    let ghost q5 = *cps_ast;
    let primop = emit_bin_prim(op, k, v1, v2, ins, Ghost(n), cps_ast, counter, span);
    proof {
        lemma_spans_step(s0, q5, *cps_ast, t, set![span]);
    }
    let ghost s1 = *cps_ast;
    proof {
        assert((cexpr_at(s1.exprs@, s1.vals@, primop as int), *counter as int) == bin_prim(op, kv, n));
        assert(s1.vals@[k2 as int] == sf.vals@[k2 as int]);
    }
    let ghost q6 = *cps_ast;
    let rhs_ce = expr_to_cps(ast, rhs, cps_ast, k2, counter);
    proof {
        lemma_spans_step(s0, q6, *cps_ast, t, subtree_spans(ast.exprs@, ast.spans@, rhs as int));
    }
    let ghost s2 = *cps_ast;
    proof {
        assert(s2.vals@[k1 as int] == sf.vals@[k1 as int]);
    }
    let ghost q_l = *cps_ast;
    let lhs_ce = match lhs {
        Some(l) => {
            let c = expr_to_cps(ast, l, cps_ast, k1, counter);
            proof {
                lemma_spans_step(s0, q_l, *cps_ast, t, subtree_spans(ast.exprs@, ast.spans@, l as int));
            }
            c
        },
        None => {
            let z = cps_ast.push_val(num_value('0'), span);
            let ghost q_z = *cps_ast;
            let z_args = vec![z];
            proof {
                assert(z_args@ =~= seq![z]);
                assert(vals_at(cps_ast.vals@, seq![z]) =~= seq![num0()]);
                lemma_spans_step(s0, q_l, q_z, t, set![span]);
            }
            let c = emit_app(cps_ast, k1, z_args, span);
            proof {
                lemma_spans_step(s0, q_z, *cps_ast, t, set![span]);
            }
            c
        },
    };
    let ghost s3 = *cps_ast;
    proof {
        lemma_grows_trans(s1, s2, s3);
        lemma_cexpr_stable(s1, s3, primop as int);
        lemma_cexpr_stable(s2, s3, rhs_ce as int);
    }
    let p2 = vec![v2];
    proof {
        assert(p2@ =~= seq![v2]);
        assert(vals_at(s3.vals@, seq![v2]) =~= seq![kvar(n + 3)]);
    }
    let ghost q8 = *cps_ast;
    let inner = emit_fix1(cps_ast, k2, p2, primop, rhs_ce, span);
    proof {
        lemma_spans_step(s0, q8, *cps_ast, t, set![span]);
    }
    let ghost s4 = *cps_ast;
    proof {
        lemma_cexpr_stable(s3, s4, lhs_ce as int);
    }
    let p1 = vec![v1];
    proof {
        assert(p1@ =~= seq![v1]);
        assert(vals_at(s4.vals@, seq![v1]) =~= seq![kvar(n + 1)]);
    }
    let ghost q9 = *cps_ast;
    let r = emit_fix1(cps_ast, k1, p1, inner, lhs_ce, span);
    proof {
        lemma_spans_step(s0, q9, *cps_ast, t, set![span]);
    }
    proof {
        lemma_grows_trans(s0, sf, s1);
        lemma_grows_trans(s0, s1, s3);
        lemma_grows_trans(s0, s3, s4);
        lemma_grows_trans(s0, s4, *cps_ast);
    }
    r
}


/// Adds the primitive operation of `op` on the operands `v1` and `v2`
/// (the fresh variables `n + 1` and `n + 3`), passing its outcome to `k`.
fn emit_bin_prim(
    op: BinOp,
    k: ValueId,
    v1: ValueId,
    v2: ValueId,
    ins: Vec<ValueId>,
    Ghost(n): Ghost<int>,
    cps_ast: &mut CpsAst,
    counter: &mut u64,
    span: CodeLoc,
) -> (r: ExprId)
    requires
        old(cps_ast).wf(),
        k < old(cps_ast).vals.len(),
        v1 < old(cps_ast).vals.len(),
        v2 < old(cps_ast).vals.len(),
        val_at(old(cps_ast).vals@, v1 as int) == kvar(n + 1),
        val_at(old(cps_ast).vals@, v2 as int) == kvar(n + 3),
        ins@ == seq![v1, v2],
        *old(counter) == n + 4,
        *old(counter) + 1 <= u64::MAX,
        old(cps_ast).exprs.len() + 3 <= usize::MAX,
        old(cps_ast).vals.len() + 2 <= usize::MAX,
    ensures
        spans_within(*old(cps_ast), *final(cps_ast), set![span]),
        final(cps_ast).wf(),
        printable(*old(cps_ast)) ==> printable(*final(cps_ast)),
        grows(*old(cps_ast), *final(cps_ast)),
        r < final(cps_ast).exprs.len(),
        final(cps_ast).exprs.len() <= old(cps_ast).exprs.len() + 3,
        final(cps_ast).vals.len() <= old(cps_ast).vals.len() + 2,
        (cexpr_at(final(cps_ast).exprs@, final(cps_ast).vals@, r as int), *final(counter) as int)
            == bin_prim(op, val_at(old(cps_ast).vals@, k as int), n),
{
    let ghost sf = *cps_ast;
    proof {
        assert(spans_within(sf, sf, set![span]));
    }
    if is_comparison_op(&op) {
        let ghost q1 = *cps_ast;
        let zero = cps_ast.push_val(num_value('0'), span);
        proof {
            lemma_spans_step(sf, q1, *cps_ast, set![span], set![span]);
        }
        let ghost q2 = *cps_ast;
        let one = cps_ast.push_val(num_value('1'), span);
        proof {
            lemma_spans_step(sf, q2, *cps_ast, set![span], set![span]);
        }
        let a0_args = vec![zero];
        let a1_args = vec![one];
        proof {
            assert(a0_args@ =~= seq![zero]);
            assert(a1_args@ =~= seq![one]);
            assert(vals_at(cps_ast.vals@, seq![zero]) =~= seq![num0()]);
            assert(vals_at(cps_ast.vals@, seq![one]) =~= seq![num1()]);
            assert(cps_ast.vals@[k as int] == sf.vals@[k as int]);
        }
        let ghost q3 = *cps_ast;
        let a0 = emit_app(cps_ast, k, a0_args, span);
        proof {
            lemma_spans_step(sf, q3, *cps_ast, set![span], set![span]);
        }
        let ghost sa = *cps_ast;
        let ghost q4 = *cps_ast;
        let a1 = emit_app(cps_ast, k, a1_args, span);
        proof {
            lemma_spans_step(sf, q4, *cps_ast, set![span], set![span]);
        }
        let ghost sb = *cps_ast;
        let outs: Vec<ValueId> = Vec::new();
        proof {
            lemma_cexpr_stable(sa, sb, a0 as int);
            assert(outs@ =~= Seq::<usize>::empty());
            assert(vals_at(sb.vals@, seq![v1, v2]) =~= seq![kvar(n + 1), kvar(n + 3)]);
            assert(vals_at(sb.vals@, Seq::<usize>::empty()) =~= Seq::<SVal>::empty());
        }
        let ghost q5 = *cps_ast;
        let p = emit_primop2(cps_ast, op, ins, outs, a0, a1, span);
        proof {
            lemma_spans_step(sf, q5, *cps_ast, set![span], set![span]);
        }
        proof {
            lemma_grows_trans(sf, sa, sb);
            lemma_grows_trans(sf, sb, *cps_ast);
        }
        p
    } else {
        let ghost q6 = *cps_ast;
        let result = fresh(counter, cps_ast, span);
        proof {
            lemma_spans_step(sf, q6, *cps_ast, set![span], set![span]);
        }
        let a_args = vec![result];
        proof {
            assert(a_args@ =~= seq![result]);
            assert(vals_at(cps_ast.vals@, seq![result]) =~= seq![kvar(n + 4)]);
            assert(cps_ast.vals@[k as int] == sf.vals@[k as int]);
        }
        let ghost q7 = *cps_ast;
        let a = emit_app(cps_ast, k, a_args, span);
        proof {
            lemma_spans_step(sf, q7, *cps_ast, set![span], set![span]);
        }
        let ghost sa = *cps_ast;
        let outs = vec![result];
        proof {
            assert(outs@ =~= seq![result]);
            assert(vals_at(sa.vals@, seq![v1, v2]) =~= seq![kvar(n + 1), kvar(n + 3)]);
            assert(vals_at(sa.vals@, seq![result]) =~= seq![kvar(n + 4)]);
        }
        let ghost q8 = *cps_ast;
        let p = emit_primop1(cps_ast, op, ins, outs, a, span);
        proof {
            lemma_spans_step(sf, q8, *cps_ast, set![span], set![span]);
        }
        proof {
            lemma_grows_trans(sf, sa, *cps_ast);
        }
        p
    }
}


/// The conversion of `let x = body in rest`, as the application of
/// `fn x => rest` to `body`.
fn cps_let(
    ast: &Ast,
    expr_id: ExprId,
    x: &String,
    body: ExprId,
    rest: ExprId,
    cps_ast: &mut CpsAst,
    k: ValueId,
    counter: &mut u64,
    span: CodeLoc,
) -> (r: ExprId)
    requires
        span == ast.spans@[expr_id as int],
        cps_pre(*ast, expr_id as int, *old(cps_ast), k as int, *old(counter) as int),
        ast.exprs@[expr_id as int] matches Expr::LetIn(y, _, b, e) && y@ == x@ && b == body && e
            == rest,
    ensures
        cps_post(
            *ast,
            expr_id as int,
            *old(cps_ast),
            *final(cps_ast),
            k as int,
            *old(counter) as int,
            *final(counter) as int,
            r as int,
        ),
    decreases expr_id, 1int,
{
    proof {
        assert(node_wf(ast.exprs@[expr_id as int], expr_id as int));
    }
    let ghost s0 = *cps_ast;
    let ghost t = subtree_spans(ast.exprs@, ast.spans@, expr_id as int);
    proof {
        lemma_subtree_parts(ast.exprs@, ast.spans@, expr_id as int);
        assert(spans_within(s0, s0, t));
    }
    let ghost n = *counter as int;
    let ghost q1 = *cps_ast;
    let k1 = fresh(counter, cps_ast, span);
    proof {
        lemma_spans_step(s0, q1, *cps_ast, t, set![span]);
    }
    let ghost q2 = *cps_ast;
    let fv = fresh(counter, cps_ast, span);
    proof {
        lemma_spans_step(s0, q2, *cps_ast, t, set![span]);
    }
    let ghost q3 = *cps_ast;
    let k2 = fresh(counter, cps_ast, span);
    proof {
        lemma_spans_step(s0, q3, *cps_ast, t, set![span]);
    }
    let ghost q4 = *cps_ast;
    let av = fresh(counter, cps_ast, span);
    proof {
        lemma_spans_step(s0, q4, *cps_ast, t, set![span]);
    }
    let args = vec![av, k];
    proof {
        assert(args@ =~= seq![av, k]);
    }
    let ghost q5 = *cps_ast;
    let app_ce = emit_app(cps_ast, fv, args, span);
    proof {
        lemma_spans_step(s0, q5, *cps_ast, t, set![span]);
    }
    let ghost s1 = *cps_ast;
    proof {
        assert(s1.vals@[k as int] == s0.vals@[k as int]);
    }
    let ghost q6 = *cps_ast;
    let rator_ce = expr_to_cps(ast, body, cps_ast, k2, counter);
    proof {
        lemma_spans_step(s0, q6, *cps_ast, t, subtree_spans(ast.exprs@, ast.spans@, body as int));
    }
    let ghost s2 = *cps_ast;
    let ghost n1 = *counter as int;
    let ghost q7 = *cps_ast;
    let f2 = fresh(counter, cps_ast, span);
    proof {
        lemma_spans_step(s0, q7, *cps_ast, t, set![span]);
    }
    let ghost q8 = *cps_ast;
    let kp = fresh(counter, cps_ast, span);
    proof {
        lemma_spans_step(s0, q8, *cps_ast, t, set![span]);
    }
    let xv = cps_ast.vals.len();
    let ghost s3 = *cps_ast;
    let ghost q9 = *cps_ast;
    let b = cps_fn_body(ast, expr_id, x, rest, f2, kp, cps_ast, counter, span);
    proof {
        lemma_spans_step(s0, q9, *cps_ast, t, set![span] + subtree_spans(ast.exprs@, ast.spans@, rest as int));
    }
    let ghost s4 = *cps_ast;
    let k1_args = vec![f2];
    proof {
        assert(k1_args@ =~= seq![f2]);
        assert(s4.vals@[k1 as int] == s1.vals@[k1 as int]);
        assert(s4.vals@[f2 as int] == s3.vals@[f2 as int]);
        assert(s4.vals@[kp as int] == s3.vals@[kp as int]);
        assert(s3.vals@[k1 as int] == s1.vals@[k1 as int]);
    }
    let ghost q10 = *cps_ast;
    let app_k1 = emit_app(cps_ast, k1, k1_args, span);
    proof {
        lemma_spans_step(s0, q10, *cps_ast, t, set![span]);
    }
    let ghost s5 = *cps_ast;
    let fparams = vec![xv, kp];
    proof {
        assert(fparams@ =~= seq![xv, kp]);
        lemma_cexpr_stable(s4, s5, b as int);
        assert(vals_at(s5.vals@, seq![xv, kp]) =~= seq![SVal::Var(x@), kvar(n1 + 1)]);
        assert(vals_at(s4.vals@, seq![f2]) =~= seq![kvar(n1)]);
    }
    let ghost q11 = *cps_ast;
    let fn_fix = emit_fix1(cps_ast, f2, fparams, b, app_k1, span);
    proof {
        lemma_spans_step(s0, q11, *cps_ast, t, set![span]);
    }
    let ghost s6 = *cps_ast;
    proof {
        lemma_grows_trans(s1, s2, s3);
        lemma_grows_trans(s1, s3, s4);
        lemma_grows_trans(s1, s4, s5);
        lemma_grows_trans(s1, s5, s6);
        lemma_grows_trans(s2, s3, s4);
        lemma_grows_trans(s2, s4, s5);
        lemma_grows_trans(s2, s5, s6);
        lemma_cexpr_stable(s1, s6, app_ce as int);
        lemma_cexpr_stable(s2, s6, rator_ce as int);
        assert(vals_at(s1.vals@, seq![av, k]) =~= seq![kvar(n + 3), val_at(s0.vals@, k as int)]);
    }
    let p1 = vec![av];
    proof {
        assert(p1@ =~= seq![av]);
        assert(vals_at(s6.vals@, seq![av]) =~= seq![kvar(n + 3)]);
    }
    let ghost q12 = *cps_ast;
    let inner = emit_fix1(cps_ast, k2, p1, app_ce, rator_ce, span);
    proof {
        lemma_spans_step(s0, q12, *cps_ast, t, set![span]);
    }
    let ghost s7 = *cps_ast;
    proof {
        lemma_cexpr_stable(s6, s7, fn_fix as int);
    }
    let p2 = vec![fv];
    proof {
        assert(p2@ =~= seq![fv]);
        assert(vals_at(s7.vals@, seq![fv]) =~= seq![kvar(n + 1)]);
    }
    let ghost q13 = *cps_ast;
    let r = emit_fix1(cps_ast, k1, p2, inner, fn_fix, span);
    proof {
        lemma_spans_step(s0, q13, *cps_ast, t, set![span]);
    }
    proof {
        lemma_grows_trans(s0, s1, s6);
        lemma_grows_trans(s0, s6, s7);
        lemma_grows_trans(s0, s7, *cps_ast);
    }
    r
}

} // verus!
