//! What the converted programs compute.  A small evaluator for programs in
//! continuation-passing form, with lexically scoped functions, and the value
//! of the source terms made of literals, conditionals and sequences; the
//! conversion of such a term passes its value to its continuation.
use vstd::prelude::*;
use crate::ast::{BinOp, SCExpr, SVal, Term};
use crate::cps::{app1, cps, fix1, kname, kvar, law_fresh_names_distinct, num0, num1};

verus! {

/// What a name stands for while a program runs: a value, or a function with
/// its parameters, its body and the bindings where it was defined.
pub enum Binding {
    Value(SVal),
    Fun(Seq<SVal>, Box<SCExpr>, Seq<(Seq<char>, Binding)>),
}

/// The binding of `x`: the latest one.
pub open spec fn lookup(env: Seq<(Seq<char>, Binding)>, x: Seq<char>) -> Option<Binding>
    decreases env.len(),
{
    if env.len() == 0 {
        None
    } else if env.last().0 == x {
        Some(env.last().1)
    } else {
        lookup(env.drop_last(), x)
    }
}

/// The name of a variable.
pub open spec fn name_of(v: SVal) -> Seq<char> {
    match v {
        SVal::Var(x) => x,
        _ => Seq::empty(),
    }
}

/// A value with a variable bound to a value replaced by that value.
pub open spec fn resolve(env: Seq<(Seq<char>, Binding)>, v: SVal) -> SVal {
    match v {
        SVal::Var(x) => match lookup(env, x) {
            Some(Binding::Value(w)) => w,
            _ => v,
        },
        _ => v,
    }
}

/// Values resolved one by one.
pub open spec fn resolve_all(env: Seq<(Seq<char>, Binding)>, vs: Seq<SVal>) -> Seq<SVal> {
    vs.map_values(|v: SVal| resolve(env, v))
}

/// The bindings `env` with the parameters `ps` bound to the arguments `args`.
pub open spec fn bind_params(env: Seq<(Seq<char>, Binding)>, ps: Seq<SVal>, args: Seq<SVal>) -> Seq<
    (Seq<char>, Binding),
>
    decreases ps.len(),
{
    if ps.len() == 0 || args.len() == 0 {
        env
    } else {
        bind_params(env, ps.drop_last(), args.drop_last()).push(
            (name_of(ps.last()), Binding::Value(args.last())),
        )
    }
}

/// Whether two number literals are equal, where that can be told from their
/// text: the same text is the same number, and 0 differs from 1.
pub open spec fn lit_eq(a: SVal, b: SVal) -> Option<bool> {
    if a == b && a is Num {
        Some(true)
    } else if (a == num0() && b == num1()) || (a == num1() && b == num0()) {
        Some(false)
    } else {
        None
    }
}

/// Runs `e` for at most `fuel` steps.  A call of a function defined by a
/// `Fix` runs its body; a call of anything else ends the run, which gives
/// what was called and the (resolved) arguments.  A comparison for equality
/// with two continuations runs the second when the operands are equal and the
/// first when they differ.  Other operations are not run.
pub open spec fn run(e: SCExpr, env: Seq<(Seq<char>, Binding)>, fuel: nat) -> Option<(SVal, Seq<SVal>)>
    decreases fuel,
{
    if fuel == 0 {
        None
    } else {
        match e {
            SCExpr::App(f, args) => {
                let a = resolve_all(env, args);
                match lookup(env, name_of(f)) {
                    Some(Binding::Fun(ps, body, cenv)) => if f is Var && ps.len() == a.len() {
                        run(*body, bind_params(cenv, ps, a), (fuel - 1) as nat)
                    } else {
                        None
                    },
                    _ => Some((resolve(env, f), a)),
                }
            },
            SCExpr::Fix(fs, body) => if fs.len() == 1 {
                run(
                    *body,
                    env.push((name_of(fs[0].0), Binding::Fun(fs[0].1, Box::new(fs[0].2), env))),
                    (fuel - 1) as nat,
                )
            } else {
                None
            },
            SCExpr::PrimOp(op, ins, _, cs) => if op == BinOp::Eq && ins.len() == 2 && cs.len() == 2 {
                match lit_eq(resolve(env, ins[0]), resolve(env, ins[1])) {
                    Some(true) => run(cs[1], env, (fuel - 1) as nat),
                    Some(false) => run(cs[0], env, (fuel - 1) as nat),
                    None => None,
                }
            } else {
                None
            },
            SCExpr::Switch(_, _) => None,
        }
    }
}

/// The value of a term made of literals, conditionals and sequences, as
/// numbers: `true` is 1, `false` and unit are 0.  A sequence has the value
/// of its right part; a conditional the value of its first branch when the
/// condition is 1 and of its second when it is 0.  Other terms have none here.
pub open spec fn value(t: Term) -> Option<SVal>
    decreases t,
{
    match t {
        Term::Num(x) => Some(SVal::Num(x)),
        Term::Bool(b) => Some(if b { num1() } else { num0() }),
        Term::Unit => Some(num0()),
        Term::Sequence(l, r) => if value(*l) is Some {
            value(*r)
        } else {
            None
        },
        Term::If(c, a, b) => match value(*c) {
            Some(v) => if v == num1() {
                value(*a)
            } else if v == num0() {
                value(*b)
            } else {
                None
            },
            None => None,
        },
        _ => None,
    }
}

/// How many steps the converted program of `t` takes before it passes the
/// value on.
pub open spec fn steps(t: Term) -> nat
    decreases t,
{
    match t {
        Term::Sequence(l, r) => 2 + steps(*l) + steps(*r),
        Term::If(c, a, b) => 3 + steps(*c) + if value(*c) == Some(num1()) {
            steps(*a)
        } else {
            steps(*b)
        },
        _ => 0,
    }
}

/// Values are numbers.
proof fn lemma_value_num(t: Term)
    requires
        value(t) is Some,
    ensures
        value(t)->Some_0 is Num,
    decreases t,
{
    match t {
        Term::Sequence(l, r) => lemma_value_num(*r),
        Term::If(c, a, b) => {
            if value(*c) == Some(num1()) {
                lemma_value_num(*a);
            } else {
                lemma_value_num(*b);
            }
        },
        _ => {},
    }
}

/// A conversion never takes back fresh indices.
pub proof fn lemma_cps_counter(t: Term, k: SVal, n: int)
    ensures
        cps(t, k, n).1 >= n,
    decreases t,
{
    match t {
        Term::If(c, a, b) => {
            lemma_cps_counter(*b, k, n + 2);
            let n1 = cps(*b, k, n + 2).1;
            lemma_cps_counter(*a, k, n1);
            let n2 = cps(*a, k, n1).1;
            lemma_cps_counter(*c, kvar(n), n2);
        },
        Term::App(f, a) => {
            lemma_cps_counter(*a, kvar(n + 2), n + 4);
            let n1 = cps(*a, kvar(n + 2), n + 4).1;
            lemma_cps_counter(*f, kvar(n), n1);
        },
        Term::LetIn(x, _, body, rest) => {
            lemma_cps_counter(*body, kvar(n + 2), n + 4);
            let n1 = cps(*body, kvar(n + 2), n + 4).1;
            lemma_cps_counter(*rest, kvar(n1 + 1), n1 + 2);
        },
        Term::Fn(x, _, body) => {
            lemma_cps_counter(*body, kvar(n + 1), n + 2);
        },
        Term::Sequence(l, r) => {
            lemma_cps_counter(*r, k, n + 2);
            let n1 = cps(*r, k, n + 2).1;
            lemma_cps_counter(*l, kvar(n), n1);
        },
        Term::BinOp(op, l, r) => {
            let m = if crate::typecheck::spec_is_comparison(op) { n + 4 } else { n + 5 };
            lemma_cps_counter(*r, kvar(n + 2), m);
            let n1 = cps(*r, kvar(n + 2), m).1;
            lemma_cps_counter(*l, kvar(n), n1);
        },
        Term::Neg(e) => {
            lemma_cps_counter(*e, kvar(n + 2), n + 5);
        },
        _ => {},
    }
}

/// Binding one parameter.
proof fn lemma_bind_one(env: Seq<(Seq<char>, Binding)>, p: SVal, v: SVal)
    ensures
        bind_params(env, seq![p], seq![v]) == env.push((name_of(p), Binding::Value(v))),
{
    assert(seq![p].drop_last() =~= Seq::<SVal>::empty());
    assert(seq![v].drop_last() =~= Seq::<SVal>::empty());
    assert(bind_params(env, Seq::<SVal>::empty(), Seq::<SVal>::empty()) == env);
    assert(seq![p].last() == p);
    assert(seq![v].last() == v);
}

/// Passing a number to `x` does not depend on a binding of another name.
proof fn lemma_app_env(
    x: Seq<char>,
    v: SVal,
    env: Seq<(Seq<char>, Binding)>,
    y: Seq<char>,
    b: Binding,
    fuel: nat,
)
    requires
        x != y,
        v is Num,
    ensures
        run(app1(SVal::Var(x), v), env.push((y, b)), fuel) == run(app1(SVal::Var(x), v), env, fuel),
{
    let env2 = env.push((y, b));
    assert(env2.drop_last() =~= env);
    assert(lookup(env2, x) == lookup(env, x));
    assert(resolve_all(env2, seq![v]) =~= seq![v]);
    assert(resolve_all(env, seq![v]) =~= seq![v]);
}

proof fn lemma_cps_runs(t: Term, x: Seq<char>, n: int, env: Seq<(Seq<char>, Binding)>, fuel: nat)
    requires
        value(t) is Some,
        0 <= n,
        forall|i: int| i >= n ==> kname(i) != x,
    ensures
        run(cps(t, SVal::Var(x), n).0, env, fuel + steps(t)) == run(
            app1(SVal::Var(x), value(t)->Some_0),
            env,
            fuel,
        ),
    decreases t, 1int,
{
    match t {
        Term::Sequence(_, _) => lemma_seq_runs(t, x, n, env, fuel),
        Term::If(_, _, _) => lemma_if_runs(t, x, n, env, fuel),
        _ => {},
    }
}

proof fn lemma_seq_runs(t: Term, x: Seq<char>, n: int, env: Seq<(Seq<char>, Binding)>, fuel: nat)
    requires
        t is Sequence,
        value(t) is Some,
        0 <= n,
        forall|i: int| i >= n ==> kname(i) != x,
    ensures
        run(cps(t, SVal::Var(x), n).0, env, fuel + steps(t)) == run(
            app1(SVal::Var(x), value(t)->Some_0),
            env,
            fuel,
        ),
    decreases t, 0int,
{
    let k = SVal::Var(x);
    let l = t->Sequence_0;
    let r = t->Sequence_1;
    let (rc, n1) = cps(*r, k, n + 2);
    let (lc, n2) = cps(*l, kvar(n), n1);
    lemma_cps_counter(*r, k, n + 2);
    lemma_value_num(*l);
    let vl = value(*l)->Some_0;
    let vr = value(*r)->Some_0;
    lemma_value_num(*r);
    let e = fix1(kvar(n), seq![kvar(n + 1)], rc, lc);
    assert(cps(t, k, n).0 == e);
    let fun = Binding::Fun(seq![kvar(n + 1)], Box::new(rc), env);
    let env1 = env.push((kname(n), fun));
    let total = fuel + steps(t);
    assert(run(e, env, total) == run(lc, env1, (total - 1) as nat));
    assert forall|i: int| i >= n1 implies kname(i) != kname(n) by {
        law_fresh_names_distinct(i, n);
    }
    lemma_cps_runs(*l, kname(n), n1, env1, fuel + 1 + steps(*r));
    assert((total - 1) as nat == fuel + 1 + steps(*r) + steps(*l));
    let env2 = env.push((kname(n + 1), Binding::Value(vl)));
    assert(env1.drop_last() =~= env);
    assert(lookup(env1, kname(n)) == Some(fun));
    assert(resolve_all(env1, seq![vl]) =~= seq![vl]);
    assert(seq![kvar(n + 1)].drop_last() =~= Seq::<SVal>::empty());
    lemma_bind_one(env, kvar(n + 1), vl);
    assert(run(app1(kvar(n), vl), env1, fuel + 1 + steps(*r)) == run(rc, env2, fuel + steps(*r)));
    lemma_cps_runs(*r, x, n + 2, env2, fuel);
    lemma_app_env(x, vr, env, kname(n + 1), Binding::Value(vl), fuel);
}

#[verifier::rlimit(50)]
proof fn lemma_if_runs(t: Term, x: Seq<char>, n: int, env: Seq<(Seq<char>, Binding)>, fuel: nat)
    requires
        t is If,
        value(t) is Some,
        0 <= n,
        forall|i: int| i >= n ==> kname(i) != x,
    ensures
        run(cps(t, SVal::Var(x), n).0, env, fuel + steps(t)) == run(
            app1(SVal::Var(x), value(t)->Some_0),
            env,
            fuel,
        ),
    decreases t, 0int,
{
    let k = SVal::Var(x);
    let c = t->If_0;
    let a = t->If_1;
    let b = t->If_2;
    let (else_c, n1) = cps(*b, k, n + 2);
    let (then_c, n2) = cps(*a, k, n1);
    let (cond_c, n3) = cps(*c, kvar(n), n2);
    lemma_cps_counter(*b, k, n + 2);
    lemma_cps_counter(*a, k, n1);
    lemma_value_num(*c);
    let vc = value(*c)->Some_0;
    let prim = SCExpr::PrimOp(BinOp::Eq, seq![kvar(n + 1), num1()], Seq::empty(), seq![else_c, then_c]);
    let e = fix1(kvar(n), seq![kvar(n + 1)], prim, cond_c);
    assert(cps(t, k, n).0 == e);
    let fun = Binding::Fun(seq![kvar(n + 1)], Box::new(prim), env);
    let env1 = env.push((kname(n), fun));
    let branch = if vc == num1() { *a } else { *b };
    let total = fuel + steps(t);
    assert(total == fuel + 3 + steps(*c) + steps(branch));
    assert(run(e, env, total) == run(cond_c, env1, (total - 1) as nat));
    assert forall|i: int| i >= n2 implies kname(i) != kname(n) by {
        law_fresh_names_distinct(i, n);
    }
    lemma_cps_runs(*c, kname(n), n2, env1, fuel + 2 + steps(branch));
    let env2 = env.push((kname(n + 1), Binding::Value(vc)));
    assert(env1.drop_last() =~= env);
    assert(lookup(env1, kname(n)) == Some(fun));
    assert(resolve_all(env1, seq![vc]) =~= seq![vc]);
    assert(seq![kvar(n + 1)].drop_last() =~= Seq::<SVal>::empty());
    assert(seq![vc].drop_last() =~= Seq::<SVal>::empty());
    lemma_bind_one(env, kvar(n + 1), vc);
    assert(run(app1(kvar(n), vc), env1, fuel + 2 + steps(branch)) == run(prim, env2, fuel + 1 + steps(branch)));
    assert(env2.drop_last() =~= env);
    assert(resolve(env2, kvar(n + 1)) == vc);
    if vc == num1() {
        assert(lit_eq(vc, num1()) == Some(true));
        assert(run(prim, env2, fuel + 1 + steps(branch)) == run(then_c, env2, fuel + steps(branch)));
        assert forall|i: int| i >= n1 implies kname(i) != x by {}
        lemma_cps_runs(*a, x, n1, env2, fuel);
        lemma_value_num(*a);
        lemma_app_env(x, value(*a)->Some_0, env, kname(n + 1), Binding::Value(vc), fuel);
    } else {
        assert(vc == num0());
        assert(lit_eq(vc, num1()) == Some(false));
        assert(run(prim, env2, fuel + 1 + steps(branch)) == run(else_c, env2, fuel + steps(branch)));
        lemma_cps_runs(*b, x, n + 2, env2, fuel);
        lemma_value_num(*b);
        lemma_app_env(x, value(*b)->Some_0, env, kname(n + 1), Binding::Value(vc), fuel);
    }
}

/// The converted program computes the value of the term.  Run with no
/// bindings, the conversion of a term made of literals, conditionals and
/// sequences ends by passing the term's value to its continuation `x`, a
/// name that no fresh variable takes.  So a sequence `l; r` passes on the
/// value of `r`, once `l` has a value, and a conditional the value of the
/// branch that its condition selects.
pub proof fn law_cps_computes_value(t: Term, x: Seq<char>, n: int)
    requires
        value(t) is Some,
        0 <= n,
        forall|i: int| 0 <= i ==> kname(i) != x,
    ensures
        run(cps(t, SVal::Var(x), n).0, Seq::empty(), steps(t) + 1) == Some(
            (SVal::Var(x), seq![value(t)->Some_0]),
        ),
{
    lemma_cps_runs(t, x, n, Seq::empty(), 1);
    lemma_value_num(t);
    let v = value(t)->Some_0;
    assert(resolve_all(Seq::empty(), seq![v]) =~= seq![v]);
}

} // verus!
