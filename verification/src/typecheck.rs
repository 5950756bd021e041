//! Type inference: constraint generation over the expression arena and
//! unification of the constraints.
use vstd::prelude::*;
use crate::ast::{
    copy_type, exprs_wf, node_wf, opt_model, term_at, type_eq, Ast, BinOp, Expr, ExprId, PExpr, SType,
    Term, Type, TypeEnv, TypeError,
};
use crate::text::{lemma_letter_injective, letter, letter_exec, push_char};
use crate::persistent::{
    constraint_set, constraints_elements, constraints_new, constraints_union,
    constraints_update, name_set, names_without, type_map, types_get, names_contains, names_new, names_union,
    names_update,
};
use crate::subst::{
    bindings_from, derived, closed, head_clash, lemma_derived_from, set_vars, lemma_seq_vars_in_set,
    apply_bindings, apply_fn, clash, is_mgu, is_mgu_seq, lemma_bind_step, lemma_clash, lemma_eq_step, lemma_fn_step,
    lemma_mgu_empty, lemma_mgu_to_set, lemma_mgu_unifiable, lemma_seq_push, lemma_seq_vars_finite,
    lemma_size_pos, lemma_subst_pairs_vars, lemma_ty_vars_finite, lemma_unifies_push, seq_size,
    seq_vars, subst1, subst_pairs, ty_vars, unifiable, unifies_seq, unifies_set,
};

verus! {

/// Two types that must be equal.
pub type Constraint = (Type, Type);

/// The models of a list of constraints.
pub open spec fn pairs_model(v: Seq<(Type, Type)>) -> Seq<(SType, SType)> {
    v.map_values(|p: (Type, Type)| (p.0@, p.1@))
}

/// The models of a list of bindings.
pub open spec fn bindings_model(v: Seq<(String, Type)>) -> Seq<(Seq<char>, SType)> {
    v.map_values(|b: (String, Type)| (b.0@, b.1@))
}

/// The type variables of a type.
pub fn tyvars_in_ty(ty: &Type) -> (r: im::HashSet<String>)
    ensures
        name_set(r) == ty_vars(ty@),
    decreases ty,
{
    match ty {
        Type::Num => names_new(),
        Type::Bool => names_new(),
        Type::Unit => names_new(),
        Type::Fn(t1, t2) => names_union(
            names_union(names_new(), tyvars_in_ty(t1)),
            tyvars_in_ty(t2),
        ),
        Type::Tyvar(s) => names_update(&names_new(), s.clone()),
    }
}

/// `t` with every occurrence of the variable `x` replaced by `r`.
fn subst_var(t: &Type, x: &String, r: &Type) -> (res: Type)
    ensures
        res@ == subst1(t@, x@, r@),
    decreases t,
{
    match t {
        Type::Fn(a, b) => Type::Fn(Box::new(subst_var(a, x, r)), Box::new(subst_var(b, x, r))),
        Type::Tyvar(y) => if *y == *x {
            copy_type(r)
        } else {
            copy_type(t)
        },
        _ => copy_type(t),
    }
}

/// Replaces `x` by `r` on both sides of every pair.
fn subst_in_pairs(work: &Vec<(Type, Type)>, x: &String, r: &Type) -> (out: Vec<(Type, Type)>)
    ensures
        pairs_model(out@) == subst_pairs(pairs_model(work@), x@, r@),
{
    let mut out: Vec<(Type, Type)> = Vec::new();
    let mut i: usize = 0;
    while i < work.len()
        invariant
            i <= work.len(),
            pairs_model(out@) == subst_pairs(pairs_model(work@), x@, r@).take(i as int),
        decreases work.len() - i,
    {
        let a = subst_var(&work[i].0, x, r);
        let b = subst_var(&work[i].1, x, r);
        let ghost old_out = out@;
        out.push((a, b));
        proof {
            assert(pairs_model(out@) =~= pairs_model(old_out).push((a@, b@)));
            assert(pairs_model(work@)[i as int] == (work@[i as int].0@, work@[i as int].1@));
            assert(subst_pairs(pairs_model(work@), x@, r@)[i as int] == (a@, b@));
            assert(pairs_model(out@) =~= subst_pairs(pairs_model(work@), x@, r@).take(
                i + 1,
            ));
        }
        i = i + 1;
    }
    proof {
        assert(subst_pairs(pairs_model(work@), x@, r@).take(i as int) =~= subst_pairs(
            pairs_model(work@),
            x@,
            r@,
        ));
    }
    out
}

/// A binding that solves the pair `(s, t)`: a variable on one side that does
/// not occur on the other, tried first on the left.
fn var_binding(s: &Type, t: &Type) -> (r: Option<(String, Type)>)
    ensures
        r matches Some(b) ==> ((s@, t@) == (SType::Var(b.0@), b.1@) || (s@, t@) == (
            b.1@,
            SType::Var(b.0@),
        )) && !ty_vars(b.1@).contains(b.0@),
        r is None ==> !(s@ is Var && !ty_vars(t@).contains(s@->Var_0)) && !(t@ is Var
            && !ty_vars(s@).contains(t@->Var_0)),
{
    if let Type::Tyvar(x) = s {
        if !names_contains(&tyvars_in_ty(t), x) {
            return Some((x.clone(), copy_type(t)));
        }
    }
    if let Type::Tyvar(y) = t {
        if !names_contains(&tyvars_in_ty(s), y) {
            return Some((y.clone(), copy_type(s)));
        }
    }
    None
}

/// Every pair of a list arises from any list that holds it.
proof fn lemma_in_derived(a: Seq<(SType, SType)>, b: Seq<(SType, SType)>)
    requires
        forall|i: int| 0 <= i < a.len() ==> b.contains(#[trigger] a[i]),
    ensures
        forall|q: (SType, SType)| a.to_set().contains(q) ==> #[trigger] derived(b.to_set(), q),
{
    assert forall|q: (SType, SType)| a.to_set().contains(q) implies #[trigger] derived(b.to_set(), q) by {
        let i = choose|i: int| 0 <= i < a.len() && a[i] == q;
        assert(b.contains(a[i]));
        assert forall|d: Set<(SType, SType)>| b.to_set().subset_of(d) && closed(d) implies #[trigger] d.contains(q) by {
            assert(b.to_set().contains(q));
        }
    }
}

/// Replacing a variable bound by the last pair gives pairs that arise from
/// the list.
proof fn lemma_subst_derived(
    rest: Seq<(SType, SType)>,
    cs: Seq<(SType, SType)>,
    x: Seq<char>,
    r: SType,
    c: (SType, SType),
)
    requires
        cs == rest.push(c),
        c == (SType::Var(x), r) || c == (r, SType::Var(x)),
    ensures
        forall|q: (SType, SType)| subst_pairs(rest, x, r).to_set().contains(q) ==> #[trigger] derived(
            cs.to_set(),
            q,
        ),
{
    assert forall|q: (SType, SType)| subst_pairs(rest, x, r).to_set().contains(q) implies #[trigger] derived(
        cs.to_set(),
        q,
    ) by {
        let w = subst_pairs(rest, x, r);
        let i = choose|i: int| 0 <= i < w.len() && w[i] == q;
        assert(w[i] == (subst1(rest[i].0, x, r), subst1(rest[i].1, x, r)));
        assert(cs[i] == rest[i]);
        assert(cs[rest.len() as int] == c);
        assert forall|d: Set<(SType, SType)>| cs.to_set().subset_of(d) && closed(d) implies #[trigger] d.contains(q) by {
            assert(cs.to_set().contains(cs[i]));
            assert(cs.to_set().contains(cs[rest.len() as int]));
            assert(d.contains((rest[i].0, rest[i].1)));
            assert(d.contains(c));
        }
    }
}

/// Splitting the last pair, of two function types, gives pairs that arise
/// from the list.
proof fn lemma_split_derived(
    rest: Seq<(SType, SType)>,
    cs: Seq<(SType, SType)>,
    s1: SType,
    s2: SType,
    t1: SType,
    t2: SType,
)
    requires
        cs == rest.push((SType::Fn(Box::new(s1), Box::new(s2)), SType::Fn(Box::new(t1), Box::new(t2)))),
    ensures
        forall|q: (SType, SType)| rest.push((s2, t2)).push((s1, t1)).to_set().contains(q) ==> #[trigger] derived(
            cs.to_set(),
            q,
        ),
{
    let w = rest.push((s2, t2)).push((s1, t1));
    let top = (SType::Fn(Box::new(s1), Box::new(s2)), SType::Fn(Box::new(t1), Box::new(t2)));
    assert forall|q: (SType, SType)| w.to_set().contains(q) implies #[trigger] derived(cs.to_set(), q) by {
        let i = choose|i: int| 0 <= i < w.len() && w[i] == q;
        assert(cs[rest.len() as int] == top);
        assert forall|d: Set<(SType, SType)>| cs.to_set().subset_of(d) && closed(d) implies #[trigger] d.contains(q) by {
            assert(cs.to_set().contains(cs[rest.len() as int]));
            assert(d.contains(top));
            if i < rest.len() {
                assert(w[i] == rest[i]);
                assert(cs[i] == rest[i]);
                assert(cs.to_set().contains(cs[i]));
            }
        }
    }
}

/// Robinson unification of a list of constraints, taken from the end.
fn unify_list(work: Vec<(Type, Type)>) -> (r: Result<Vec<(String, Type)>, (Type, Type)>)
    ensures
        r matches Ok(bs) ==> is_mgu_seq(bindings_model(bs@), pairs_model(work@)),
        r matches Ok(bs) ==> bindings_from(bindings_model(bs@), seq_vars(pairs_model(work@))),
        r matches Err(e) ==> clash(e.0@, e.1@) && forall|th: spec_fn(Seq<char>) -> SType|
            !#[trigger] unifies_seq(th, pairs_model(work@)),
        r matches Err(e) ==> head_clash(e.0@, e.1@) && derived(pairs_model(work@).to_set(), (e.0@, e.1@)),
    decreases seq_vars(pairs_model(work@)).len(), seq_size(pairs_model(work@)),
{
    let ghost cs = pairs_model(work@);
    let mut work = work;
    match work.pop() {
        None => {
            proof {
                assert(cs =~= Seq::<(SType, SType)>::empty());
                assert(bindings_model(Seq::<(String, Type)>::empty()) =~= Seq::<
                    (Seq<char>, SType),
                >::empty());
                lemma_mgu_empty();
            }
            Ok(Vec::new())
        },
        Some(pair) => {
            let (s, t) = pair;
            let ghost rest = pairs_model(work@);
            proof {
                assert(cs =~= rest.push((s@, t@)));
                lemma_seq_push(rest, (s@, t@));
                lemma_seq_vars_finite(cs);
                lemma_size_pos(s@);
                lemma_size_pos(t@);
            }
            if type_eq(&s, &t) {
                proof {
                    vstd::set_lib::lemma_len_subset(seq_vars(rest), seq_vars(cs));
                }
                let res = unify_list(work);
                proof {
                    match &res {
                        Ok(bs) => lemma_eq_step(rest, s@, bindings_model(bs@)),
                        Err(e) => {
                            assert forall|i: int| 0 <= i < rest.len() implies cs.contains(#[trigger] rest[i]) by {
                                assert(cs[i] == rest[i]);
                            }
                            lemma_in_derived(rest, cs);
                            lemma_derived_from(rest.to_set(), cs.to_set(), (e.0@, e.1@));
                            lemma_eq_step(rest, s@, Seq::empty());
                            assert forall|th: spec_fn(Seq<char>) -> SType|
                                !#[trigger] unifies_seq(th, cs) by {
                                assert(!unifies_seq(th, rest));
                            }
                        },
                    }
                }
                return res;
            }
            match var_binding(&s, &t) {
                Some((x, r)) => {
                    let work2 = subst_in_pairs(&work, &x, &r);
                    proof {
                        lemma_subst_pairs_vars(rest, x@, r@);
                        lemma_ty_vars_finite(r@);
                        assert(seq_vars(cs).contains(x@));
                        assert(seq_vars(pairs_model(work2@)).subset_of(seq_vars(cs).remove(x@)));
                        vstd::set_lib::lemma_len_subset(
                            seq_vars(pairs_model(work2@)),
                            seq_vars(cs).remove(x@),
                        );
                    }
                    let res = unify_list(work2);
                    match res {
                        Ok(bs) => {
                            let mut bs = bs;
                            proof {
                                lemma_bind_step(rest, x@, r@, (s@, t@), bindings_model(bs@));
                            }
                            let ghost old_bs = bs@;
                            bs.push((x, r));
                            proof {
                                assert(bindings_model(bs@) =~= bindings_model(old_bs).push(
                                    (x@, r@),
                                ));
                            }
                            Ok(bs)
                        },
                        Err(e) => {
                            proof {
                                lemma_subst_derived(rest, cs, x@, r@, (s@, t@));
                                lemma_derived_from(pairs_model(work2@).to_set(), cs.to_set(), (e.0@, e.1@));
                                lemma_bind_step(rest, x@, r@, (s@, t@), Seq::empty());
                                assert forall|th: spec_fn(Seq<char>) -> SType|
                                    !#[trigger] unifies_seq(th, cs) by {
                                    assert(!unifies_seq(th, pairs_model(work2@)));
                                }
                            }
                            Err(e)
                        },
                    }
                },
                None => {
                    match s {
                        Type::Fn(s1, s2) => match t {
                            Type::Fn(t1, t2) => {
                                let ghost w0 = work@;
                                work.push((*s2, *t2));
                                work.push((*s1, *t1));
                                proof {
                                    assert(pairs_model(work@) =~= rest.push((s2@, t2@)).push(
                                        (s1@, t1@),
                                    ));
                                    lemma_seq_push(rest, (s2@, t2@));
                                    lemma_seq_push(rest.push((s2@, t2@)), (s1@, t1@));
                                    assert(seq_vars(pairs_model(work@)) =~= seq_vars(cs));
                                }
                                let res = unify_list(work);
                                proof {
                                    match &res {
                                        Ok(bs) => lemma_fn_step(
                                            rest,
                                            s1@,
                                            s2@,
                                            t1@,
                                            t2@,
                                            bindings_model(bs@),
                                        ),
                                        Err(e) => {
                                            lemma_split_derived(rest, cs, s1@, s2@, t1@, t2@);
                                            lemma_derived_from(pairs_model(work@).to_set(), cs.to_set(), (e.0@, e.1@));
                                            lemma_fn_step(
                                                rest,
                                                s1@,
                                                s2@,
                                                t1@,
                                                t2@,
                                                Seq::empty(),
                                            );
                                            assert forall|th: spec_fn(Seq<char>) -> SType|
                                                !#[trigger] unifies_seq(th, cs) by {
                                                assert(!unifies_seq(th, pairs_model(work@)));
                                            }
                                        },
                                    }
                                }
                                res
                            },
                            t => {
                                let s = Type::Fn(s1, s2);
                                proof {
                                    lemma_clash(s@, t@);
                                    lemma_in_derived(cs, cs);
                                    assert(cs[cs.len() - 1] == (s@, t@));
                                    assert forall|th: spec_fn(Seq<char>) -> SType|
                                        !#[trigger] unifies_seq(th, cs) by {
                                        lemma_unifies_push(th, rest, (s@, t@));
                                    }
                                }
                                Err((s, t))
                            },
                        },
                        s => {
                            proof {
                                lemma_clash(s@, t@);
                                lemma_in_derived(cs, cs);
                                assert(cs[cs.len() - 1] == (s@, t@));
                                assert forall|th: spec_fn(Seq<char>) -> SType|
                                    !#[trigger] unifies_seq(th, cs) by {
                                    lemma_unifies_push(th, rest, (s@, t@));
                                }
                            }
                            Err((s, t))
                        },
                    }
                },
            }
        },
    }
}

/// Solves a set of constraints.  On success the bindings are a most general
/// unifier of the set, each binding a variable of the set to a type in which
/// it does not occur.  Otherwise the set has no unifier, and the pair
/// returned is one at which unification stops: a pair of the set, or one
/// that arises from it by splitting function types and replacing bound
/// variables, kept in its orientation, whose sides have different
/// constructors or of which one is a variable that occurs in the other.
/// Which such pair it is depends on the order in which the set yields its
/// elements.
pub fn unify(c: &im::HashSet<Constraint>) -> (r: Result<Vec<(String, Type)>, Constraint>)
    ensures
        r is Ok <==> unifiable(constraint_set(*c)),
        r matches Ok(bs) ==> is_mgu(bindings_model(bs@), constraint_set(*c)),
        r matches Err(e) ==> clash(e.0@, e.1@),
        r matches Ok(bs) ==> bindings_from(bindings_model(bs@), set_vars(constraint_set(*c))),
        r matches Err(e) ==> head_clash(e.0@, e.1@) && derived(constraint_set(*c), (e.0@, e.1@)),
{
    let v = constraints_elements(c);
    let r = unify_list(v);
    proof {
        let cs = pairs_model(v@);
        lemma_seq_vars_in_set(cs);
        assert(cs.to_set() == constraint_set(*c));
        match &r {
            Ok(bs) => {
                lemma_mgu_to_set(bindings_model(bs@), cs);
                lemma_mgu_unifiable(bindings_model(bs@), cs.to_set());
            },
            Err(_) => {
                lemma_mgu_to_set(Seq::empty(), cs);
                if unifiable(constraint_set(*c)) {
                    let th = choose|th: spec_fn(Seq<char>) -> SType|
                        unifies_set(th, constraint_set(*c));
                    assert(unifies_seq(th, cs));
                }
            },
        }
    }
    r
}


/// The bijective base-26 numeral of `n` over the letters `a` to `z`: 1 is
/// `a`, 26 is `z`, 27 is `aa`; 0 has no letters.
pub open spec fn base26_name(n: nat) -> Seq<char>
    decreases n,
{
    if n == 0 {
        Seq::empty()
    } else {
        base26_name(((n - 1) / 26) as nat).push(letter((n - 1) % 26))
    }
}

/// The name of the type variable with index `n`: the base-26 numeral of `n`,
/// except that 0 is also named `a`; a negative index has the empty name.
pub open spec fn tyvar_name(n: int) -> Seq<char> {
    if n == 0 {
        seq!['a']
    } else if n < 0 {
        Seq::empty()
    } else {
        base26_name(n as nat)
    }
}

/// Distinct positive indices have distinct names.
pub proof fn lemma_base26_injective(m: nat, n: nat)
    requires
        base26_name(m) == base26_name(n),
    ensures
        m == n,
    decreases m,
{
    if m == 0 || n == 0 {
        if m != n {
            if m == 0 {
                assert(base26_name(n).len() == base26_name(((n - 1) / 26) as nat).len() + 1);
            } else {
                assert(base26_name(m).len() == base26_name(((m - 1) / 26) as nat).len() + 1);
            }
        }
    } else {
        let pm = base26_name(((m - 1) / 26) as nat);
        let pn = base26_name(((n - 1) / 26) as nat);
        assert(base26_name(m).last() == letter((m - 1) % 26));
        assert(base26_name(n).last() == letter((n - 1) % 26));
        lemma_letter_injective((m - 1) % 26, (n - 1) % 26);
        assert(pm =~= base26_name(m).drop_last());
        assert(pn =~= base26_name(n).drop_last());
        lemma_base26_injective(((m - 1) / 26) as nat, ((n - 1) / 26) as nat);
    }
}

/// Type variables with distinct positive indices have distinct names, so the
/// variables that [`gen_tyvar`] hands out from a positive counter are fresh.
/// (Index 0 is named `a`, as index 1 is.)
pub proof fn law_tyvar_names_distinct(m: int, n: int)
    requires
        1 <= m,
        1 <= n,
        m != n,
    ensures
        tyvar_name(m) != tyvar_name(n),
{
    if tyvar_name(m) == tyvar_name(n) {
        lemma_base26_injective(m as nat, n as nat);
    }
}

/// The number that a bijective base-26 numeral over `a` to `z` denotes:
/// each letter counts its place in the alphabet, from 1.
pub open spec fn base26_value(s: Seq<char>) -> int
    decreases s.len(),
{
    if s.len() == 0 {
        0
    } else {
        26 * base26_value(s.drop_last()) + (s.last() as int - 'a' as int + 1)
    }
}

/// The name of a positive index is a non-empty word over `a` to `z` whose
/// bijective base-26 value is the index.
pub proof fn law_base26_value(n: nat)
    ensures
        base26_value(base26_name(n)) == n,
        n >= 1 ==> base26_name(n).len() >= 1,
        forall|i: int| 0 <= i < base26_name(n).len() ==> 'a' <= #[trigger] base26_name(n)[i] <= 'z',
    decreases n,
{
    if n > 0 {
        let m = ((n - 1) / 26) as nat;
        let d = (n - 1) % 26;
        law_base26_value(m);
        let w = base26_name(n);
        assert(w == base26_name(m).push(letter(d)));
        assert(w.drop_last() =~= base26_name(m));
        assert(letter(d) as u32 == 97 + d);
        assert forall|i: int| 0 <= i < w.len() implies 'a' <= #[trigger] w[i] <= 'z' by {
            if i < w.len() - 1 {
                assert(w[i] == base26_name(m)[i]);
            }
        }
    }
}

/// The name of the type variable with index `num`.
pub fn idx_to_tvar(num: i32) -> (r: String)
    ensures
        r@ == tyvar_name(num as int),
{
    let mut result = String::new();
    if num == 0 {
        push_char(&mut result, 'a');
        proof {
            assert(result@ =~= seq!['a']);
        }
        return result;
    }
    if num < 0 {
        return result;
    }
    let ghost n0 = num as nat;
    let mut num: u32 = num as u32;
    let mut digits: Vec<char> = Vec::new();
    while num > 0
        invariant
            base26_name(n0) == base26_name(num as nat) + digits@.reverse(),
        decreases num,
    {
        let ghost before = num;
        num -= 1;
        let remainder = (num % 26) as u8;
        let ghost old_digits = digits@;
        digits.push(letter_exec(remainder));
        num /= 26;
        proof {
            assert(digits@.reverse() =~= seq![letter((before - 1) % 26)] + old_digits.reverse());
            assert(base26_name(before as nat) == base26_name(num as nat).push(
                letter((before - 1) % 26),
            ));
            assert(base26_name(n0) =~= base26_name(num as nat) + digits@.reverse());
        }
    }
    let mut i = digits.len();
    while i > 0
        invariant
            i <= digits@.len(),
            result@ == digits@.subrange(i as int, digits@.len() as int).reverse(),
        decreases i,
    {
        i -= 1;
        push_char(&mut result, digits[i]);
        proof {
            assert(result@ =~= digits@.subrange(i as int, digits@.len() as int).reverse());
        }
    }
    proof {
        assert(digits@.subrange(0, digits@.len() as int) =~= digits@);
        assert(base26_name(0) =~= Seq::<char>::empty());
        assert(base26_name(n0) =~= digits@.reverse());
    }
    result
}

/// A fresh type variable: the one with index `*counter`, which is then
/// incremented.
pub fn gen_tyvar(counter: &mut i32) -> (r: Type)
    requires
        1 <= *old(counter) < i32::MAX,
    ensures
        r@ == SType::Var(tyvar_name(*old(counter) as int)),
        *final(counter) == *old(counter) + 1,
{
    let r = Type::Tyvar(idx_to_tvar(*counter));
    *counter = *counter + 1;
    r
}

/// Whether `op` compares its operands (and yields a boolean).
pub open spec fn spec_is_comparison(op: BinOp) -> bool {
    match op {
        BinOp::Eq | BinOp::Neq | BinOp::Geq | BinOp::Gt | BinOp::Leq | BinOp::Lt => true,
        _ => false,
    }
}

/// Whether `op` compares its operands (and yields a boolean).
pub fn is_comparison_op(op: &BinOp) -> (r: bool)
    ensures
        r == spec_is_comparison(*op),
{
    match op {
        BinOp::Eq | BinOp::Neq | BinOp::Geq | BinOp::Gt | BinOp::Leq | BinOp::Lt => true,
        _ => false,
    }
}


/// The number of nodes of a term.
pub open spec fn term_size(t: Term) -> nat
    decreases t,
{
    match t {
        Term::If(a, b, c) => 1 + term_size(*a) + term_size(*b) + term_size(*c),
        Term::LetIn(_, _, a, b) => 1 + term_size(*a) + term_size(*b),
        Term::Fn(_, _, a) => 1 + term_size(*a),
        Term::App(a, b) => 1 + term_size(*a) + term_size(*b),
        Term::Sequence(a, b) => 1 + term_size(*a) + term_size(*b),
        Term::Neg(a) => 1 + term_size(*a),
        Term::BinOp(_, a, b) => 1 + term_size(*a) + term_size(*b),
        _ => 1,
    }
}

/// The size of the tree of an expression is its number of nodes.
pub proof fn lemma_term_size(p: PExpr)
    ensures
        term_size(p.term()) == p.size(),
    decreases p,
{
    match p {
        PExpr::If(a, b, c) => {
            lemma_term_size(a.inner);
            lemma_term_size(b.inner);
            lemma_term_size(c.inner);
        },
        PExpr::LetIn(_, _, a, b) => {
            lemma_term_size(a.inner);
            lemma_term_size(b.inner);
        },
        PExpr::Fn(_, _, a) => {
            lemma_term_size(a.inner);
        },
        PExpr::App(a, b) => {
            lemma_term_size(a.inner);
            lemma_term_size(b.inner);
        },
        PExpr::Sequence(a, b) => {
            lemma_term_size(a.inner);
            lemma_term_size(b.inner);
        },
        PExpr::Neg(a) => {
            lemma_term_size(a.inner);
        },
        PExpr::BinOp(_, a, b) => {
            lemma_term_size(a.inner);
            lemma_term_size(b.inner);
        },
        _ => {},
    }
}

/// What constraint typing makes of a term.
pub enum Inferred {
    /// The term's type, the constraints on it, and the next unused index of a
    /// fresh type variable.
    Typed(SType, Set<(SType, SType)>, int),
    /// A variable that is not in scope.
    Unbound(Seq<char>),
    /// The constraints of some subterm, given here, have no unifier.
    Mismatch(Set<(SType, SType)>),
}

/// The fresh type variable with index `n`.
pub open spec fn fresh_var(n: int) -> SType {
    SType::Var(tyvar_name(n))
}

/// Constraint typing of a term, checking at each node that its constraints
/// have a unifier.  Subterms are typed from left to right, and each variable
/// without an annotation, and each application, takes the next fresh type
/// variable.
pub open spec fn infer(t: Term, env: Map<Seq<char>, SType>, n: int) -> Inferred
    decreases t, 1int,
{
    match infer_node(t, env, n) {
        Inferred::Typed(ty, cs, m) => if unifiable(cs) {
            Inferred::Typed(ty, cs, m)
        } else {
            Inferred::Mismatch(cs)
        },
        r => r,
    }
}

/// The typing rule of the outermost node of `t`.
pub open spec fn infer_node(t: Term, env: Map<Seq<char>, SType>, n: int) -> Inferred
    decreases t, 0int,
{
    match t {
        Term::Var(x) => if env.contains_key(x) {
            Inferred::Typed(env[x], Set::empty(), n)
        } else {
            Inferred::Unbound(x)
        },
        Term::Num(_) => Inferred::Typed(SType::Num, Set::empty(), n),
        Term::Bool(_) => Inferred::Typed(SType::Bool, Set::empty(), n),
        Term::Unit => Inferred::Typed(SType::Unit, Set::empty(), n),
        Term::If(a, b, c) => match infer(*a, env, n) {
            Inferred::Typed(t1, c1, n1) => match infer(*b, env, n1) {
                Inferred::Typed(t2, c2, n2) => match infer(*c, env, n2) {
                    Inferred::Typed(t3, c3, n3) => Inferred::Typed(
                        t2,
                        (c1 + c2 + c3).insert((t1, SType::Bool)).insert((t2, t3)),
                        n3,
                    ),
                    r => r,
                },
                r => r,
            },
            r => r,
        },
        Term::Fn(x, ann, body) => {
            let (tp, n1) = match ann {
                Some(a) => (a, n),
                None => (fresh_var(n), n + 1),
            };
            match infer(*body, env.insert(x, tp), n1) {
                Inferred::Typed(tb, cs, n2) => Inferred::Typed(
                    SType::Fn(Box::new(tp), Box::new(tb)),
                    cs,
                    n2,
                ),
                r => r,
            }
        },
        Term::App(f, a) => match infer(*f, env, n) {
            Inferred::Typed(t1, c1, n1) => match infer(*a, env, n1) {
                Inferred::Typed(t2, c2, n2) => Inferred::Typed(
                    fresh_var(n2),
                    (c1 + c2).insert((t1, SType::Fn(Box::new(t2), Box::new(fresh_var(n2))))),
                    n2 + 1,
                ),
                r => r,
            },
            r => r,
        },
        Term::Sequence(l, r) => match infer(*l, env, n) {
            Inferred::Typed(t1, _, n1) => match infer(*r, env, n1) {
                Inferred::Typed(t2, c2, n2) => Inferred::Typed(
                    t2,
                    c2.insert((t1, SType::Unit)),
                    n2,
                ),
                res => res,
            },
            res => res,
        },
        Term::BinOp(op, a, b) => match infer(*a, env, n) {
            Inferred::Typed(t1, c1, n1) => match infer(*b, env, n1) {
                Inferred::Typed(t2, c2, n2) => if spec_is_comparison(op) {
                    Inferred::Typed(SType::Bool, (c1 + c2).insert((t1, t2)), n2)
                } else {
                    Inferred::Typed(
                        SType::Num,
                        (c1 + c2).insert((t1, SType::Num)).insert((t2, SType::Num)),
                        n2,
                    )
                },
                r => r,
            },
            r => r,
        },
        Term::Neg(e) => infer(*e, env, n),
        Term::LetIn(x, ann, a, b) => match infer(*a, env, n) {
            Inferred::Typed(t1, c1, n1) => {
                let (tx, extra) = match ann {
                    Some(at) => (at, set![(t1, at)]),
                    None => (t1, Set::empty()),
                };
                match infer(*b, env.insert(x, tx), n1) {
                    Inferred::Typed(t2, c2, n2) => Inferred::Typed(t2, c1 + c2 + extra, n2),
                    r => r,
                }
            },
            r => r,
        },
    }
}


/// A typed conditional has a boolean condition and branches of one type:
/// every substitution that solves the constraints of `if c then a else b`
/// makes the type of `c` equal to `Bool` and the types of `a` and `b` equal,
/// and the conditional has the type of `a`.  So a conditional whose condition
/// has a number, unit or function type is rejected.
pub proof fn law_if_condition_bool(c: Term, a: Term, b: Term, env: Map<Seq<char>, SType>, n: int)
    ensures
        infer(Term::If(Box::new(c), Box::new(a), Box::new(b)), env, n) matches Inferred::Typed(ty, cs, _)
            ==> {
            &&& infer(c, env, n) matches Inferred::Typed(tc, cc, n1) && cc.subset_of(cs) && (infer(
                a,
                env,
                n1,
            ) matches Inferred::Typed(ta, _, n2) && ty == ta && (infer(b, env, n2) matches Inferred::Typed(
                tb,
                _,
                _,
            ) && forall|th: spec_fn(Seq<char>) -> SType|
                unifies_set(th, cs) ==> apply_fn(th, tc) == SType::Bool && apply_fn(th, ta) == apply_fn(
                    th,
                    tb,
                )))
        },
        infer(c, env, n) matches Inferred::Typed(tc, _, _) && (tc == SType::Num || tc == SType::Unit
            || tc is Fn) ==> !(infer(Term::If(Box::new(c), Box::new(a), Box::new(b)), env, n) is Typed),
{
    let t = Term::If(Box::new(c), Box::new(a), Box::new(b));
    if let Inferred::Typed(ty, cs, _) = infer(t, env, n) {
        if let Inferred::Typed(tc, cc, n1) = infer(c, env, n) {
            if let Inferred::Typed(ta, ca, n2) = infer(a, env, n1) {
                if let Inferred::Typed(tb, cb, n3) = infer(b, env, n2) {
                    assert(cs == (cc + ca + cb).insert((tc, SType::Bool)).insert((ta, tb)));
                    assert forall|th: spec_fn(Seq<char>) -> SType| unifies_set(th, cs) implies apply_fn(th, tc)
                        == SType::Bool && apply_fn(th, ta) == apply_fn(th, tb) by {
                        assert(cs.contains((tc, SType::Bool)));
                        assert(cs.contains((ta, tb)));
                    }
                    assert(unifiable(cs));
                    let th = choose|th: spec_fn(Seq<char>) -> SType| unifies_set(th, cs);
                    assert(apply_fn(th, tc) == SType::Bool);
                }
            }
        }
    }
}

/// A typed arithmetic operation has number operands and a number result; a
/// typed comparison has operands of one type and a boolean result: every
/// substitution that solves the constraints says so.
pub proof fn law_binop_types(op: BinOp, l: Term, r: Term, env: Map<Seq<char>, SType>, n: int)
    ensures
        infer(Term::BinOp(op, Box::new(l), Box::new(r)), env, n) matches Inferred::Typed(ty, cs, _)
            ==> {
            &&& infer(l, env, n) matches Inferred::Typed(tl, _, n1) && (infer(r, env, n1) matches Inferred::Typed(
                tr,
                _,
                _,
            ) && if spec_is_comparison(op) {
                ty == SType::Bool && forall|th: spec_fn(Seq<char>) -> SType|
                    unifies_set(th, cs) ==> apply_fn(th, tl) == apply_fn(th, tr)
            } else {
                ty == SType::Num && forall|th: spec_fn(Seq<char>) -> SType|
                    unifies_set(th, cs) ==> apply_fn(th, tl) == SType::Num && apply_fn(th, tr)
                        == SType::Num
            })
        },
{
    let t = Term::BinOp(op, Box::new(l), Box::new(r));
    if let Inferred::Typed(ty, cs, _) = infer(t, env, n) {
        if let Inferred::Typed(tl, cl, n1) = infer(l, env, n) {
            if let Inferred::Typed(tr, cr, n2) = infer(r, env, n1) {
                if spec_is_comparison(op) {
                    assert(cs == (cl + cr).insert((tl, tr)));
                    assert forall|th: spec_fn(Seq<char>) -> SType| unifies_set(th, cs) implies apply_fn(th, tl)
                        == apply_fn(th, tr) by {
                        assert(cs.contains((tl, tr)));
                    }
                } else {
                    assert(cs == (cl + cr).insert((tl, SType::Num)).insert((tr, SType::Num)));
                    assert forall|th: spec_fn(Seq<char>) -> SType| unifies_set(th, cs) implies apply_fn(th, tl)
                        == SType::Num && apply_fn(th, tr) == SType::Num by {
                        assert(cs.contains((tl, SType::Num)));
                        assert(cs.contains((tr, SType::Num)));
                    }
                }
            }
        }
    }
}

/// A typed application applies a function to an argument of its parameter
/// type: every substitution that solves the constraints makes the type of
/// the function a function from the argument's type to the application's
/// type.
pub proof fn law_app_types(f: Term, a: Term, env: Map<Seq<char>, SType>, n: int)
    ensures
        infer(Term::App(Box::new(f), Box::new(a)), env, n) matches Inferred::Typed(ty, cs, _) ==> (infer(
            f,
            env,
            n,
        ) matches Inferred::Typed(tf, _, n1) && (infer(a, env, n1) matches Inferred::Typed(ta, _, _)
            && forall|th: spec_fn(Seq<char>) -> SType|
            unifies_set(th, cs) ==> apply_fn(th, tf) == SType::Fn(
                Box::new(apply_fn(th, ta)),
                Box::new(apply_fn(th, ty)),
            ))),
{
    let t = Term::App(Box::new(f), Box::new(a));
    if let Inferred::Typed(ty, cs, _) = infer(t, env, n) {
        if let Inferred::Typed(tf, cf, n1) = infer(f, env, n) {
            if let Inferred::Typed(ta, ca, n2) = infer(a, env, n1) {
                let r = fresh_var(n2);
                assert(ty == r);
                assert(cs == (cf + ca).insert((tf, SType::Fn(Box::new(ta), Box::new(r)))));
                assert forall|th: spec_fn(Seq<char>) -> SType| unifies_set(th, cs) implies apply_fn(th, tf)
                    == SType::Fn(Box::new(apply_fn(th, ta)), Box::new(apply_fn(th, ty))) by {
                    assert(cs.contains((tf, SType::Fn(Box::new(ta), Box::new(r)))));
                }
            }
        }
    }
}

/// A typed `let x: t = e in b` gives `e` the annotated type: every
/// substitution that solves the constraints makes the type of `e` equal to
/// `t`; and the whole has the type of `b`, typed with `x` bound to `t`.
pub proof fn law_let_annotation(x: Seq<char>, t: SType, e: Term, b: Term, env: Map<Seq<char>, SType>, n: int)
    ensures
        infer(Term::LetIn(x, Some(t), Box::new(e), Box::new(b)), env, n) matches Inferred::Typed(ty, cs, _)
            ==> (infer(e, env, n) matches Inferred::Typed(te, _, n1) && (infer(b, env.insert(x, t), n1) matches Inferred::Typed(
            tb,
            _,
            _,
        ) && ty == tb && forall|th: spec_fn(Seq<char>) -> SType|
            unifies_set(th, cs) ==> apply_fn(th, te) == apply_fn(th, t))),
{
    let term = Term::LetIn(x, Some(t), Box::new(e), Box::new(b));
    if let Inferred::Typed(ty, cs, _) = infer(term, env, n) {
        if let Inferred::Typed(te, ce, n1) = infer(e, env, n) {
            if let Inferred::Typed(tb, cb, n2) = infer(b, env.insert(x, t), n1) {
                assert(cs == ce + cb + set![(te, t)]);
                assert forall|th: spec_fn(Seq<char>) -> SType| unifies_set(th, cs) implies apply_fn(th, te)
                    == apply_fn(th, t) by {
                    assert(cs.contains((te, t)));
                }
            }
        }
    }
}

/// Whether `r` is the outcome that `i` describes.
pub open spec fn outcome_is(r: Result<(Type, im::HashSet<Constraint>), TypeError>, i: Inferred) -> bool {
    match i {
        Inferred::Typed(ty, cs, _) => r matches Ok(p) && p.0@ == ty && constraint_set(p.1) == cs,
        Inferred::Unbound(x) => r matches Err(TypeError::UnboundVariable(y)) && y@ == x,
        Inferred::Mismatch(cs) => r matches Err(TypeError::TypeMismatch { expected, found }) && clash(
            expected@,
            found@,
        ) && head_clash(expected@, found@) && derived(cs, (expected@, found@)),
    }
}

/// Keeps a node's type and constraints if the constraints have a unifier.
fn check_node(ty: Type, cs: im::HashSet<Constraint>) -> (r: Result<
    (Type, im::HashSet<Constraint>),
    TypeError,
>)
    ensures
        outcome_is(
            r,
            if unifiable(constraint_set(cs)) {
                Inferred::Typed(ty@, constraint_set(cs), 0)
            } else {
                Inferred::Mismatch(constraint_set(cs))
            },
        ),
{
    match unify(&cs) {
        Ok(_) => Ok((ty, cs)),
        Err((expected, found)) => Err(TypeError::TypeMismatch { expected, found }),
    }
}

/// Constraint typing of the expression `expr_id` of `ast` in `env`: its type
/// and the constraints on the type variables, which have a unifier.  Fresh
/// type variables are numbered from `*counter` on, which is at least 1 so that
/// they all have different names.
pub fn typecheck_expr(ast: &Ast, expr_id: ExprId, env: &TypeEnv, counter: &mut i32) -> (r: Result<
    (Type, im::HashSet<Constraint>),
    TypeError,
>)
    requires
        ast.wf(),
        expr_id < ast.exprs.len(),
        1 <= *old(counter),
        *old(counter) + term_size(term_at(ast.exprs@, expr_id as int)) <= i32::MAX,
    ensures
        outcome_is(r, infer(term_at(ast.exprs@, expr_id as int), env@, *old(counter) as int)),
        infer(term_at(ast.exprs@, expr_id as int), env@, *old(counter) as int) matches Inferred::Typed(
            _,
            _,
            m,
        ) ==> *final(counter) == m,
        *old(counter) <= *final(counter) <= *old(counter) + term_size(
            term_at(ast.exprs@, expr_id as int),
        ),
    decreases expr_id,
{
    proof {
        assert(node_wf(ast.exprs@[expr_id as int], expr_id as int));
    }
    let res: Result<(Type, im::HashSet<Constraint>), TypeError> = match &ast.exprs[expr_id] {
        Expr::Var(name) => match env.get_env(name.clone()) {
            Some(ty) => Ok((ty, constraints_new())),
            None => Err(TypeError::UnboundVariable(name.clone())),
        },
        Expr::Num(_) => Ok((Type::Num, constraints_new())),
        Expr::Bool(_) => Ok((Type::Bool, constraints_new())),
        Expr::Unit => Ok((Type::Unit, constraints_new())),
        Expr::If(t1, t2, t3) => {
            let (ty1, c1) = match typecheck_expr(ast, *t1, env, counter) {
                Ok(p) => p,
                Err(e) => return Err(e),
            };
            let (ty2, c2) = match typecheck_expr(ast, *t2, env, counter) {
                Ok(p) => p,
                Err(e) => return Err(e),
            };
            let (ty3, c3) = match typecheck_expr(ast, *t3, env, counter) {
                Ok(p) => p,
                Err(e) => return Err(e),
            };
            let cs = constraints_update(
                &constraints_update(
                    &constraints_union(constraints_union(c1, c2), c3),
                    (ty1, Type::Bool),
                ),
                (ty2.clone(), ty3),
            );
            Ok((ty2, cs))
        },
        Expr::Fn(v, ty, body) => {
            let ty_provided = match ty {
                Some(t) => copy_type(t),
                None => gen_tyvar(counter),
            };
            let env2 = env.upd_env(v.clone(), ty_provided.clone());
            let (ty_body, cs) = match typecheck_expr(ast, *body, &env2, counter) {
                Ok(p) => p,
                Err(e) => return Err(e),
            };
            Ok((Type::Fn(Box::new(ty_provided), Box::new(ty_body)), cs))
        },
        Expr::App(t1, t2) => {
            let (ty1, c1) = match typecheck_expr(ast, *t1, env, counter) {
                Ok(p) => p,
                Err(e) => return Err(e),
            };
            let (ty2, c2) = match typecheck_expr(ast, *t2, env, counter) {
                Ok(p) => p,
                Err(e) => return Err(e),
            };
            let fresh_tyvar = gen_tyvar(counter);
            let cs = constraints_update(
                &constraints_union(c1, c2),
                (ty1, Type::Fn(Box::new(ty2), Box::new(fresh_tyvar.clone()))),
            );
            Ok((fresh_tyvar, cs))
        },
        Expr::Sequence(lhs, rhs) => {
            let (ty1, _) = match typecheck_expr(ast, *lhs, env, counter) {
                Ok(p) => p,
                Err(e) => return Err(e),
            };
            let (ty2, cs) = match typecheck_expr(ast, *rhs, env, counter) {
                Ok(p) => p,
                Err(e) => return Err(e),
            };
            Ok((ty2, constraints_update(&cs, (ty1, Type::Unit))))
        },
        Expr::BinOp(op, e1, e2) => {
            let (ty1, c1) = match typecheck_expr(ast, *e1, env, counter) {
                Ok(p) => p,
                Err(e) => return Err(e),
            };
            let (ty2, c2) = match typecheck_expr(ast, *e2, env, counter) {
                Ok(p) => p,
                Err(e) => return Err(e),
            };
            if is_comparison_op(op) {
                Ok((Type::Bool, constraints_update(&constraints_union(c1, c2), (ty1, ty2))))
            } else {
                let cs = constraints_update(
                    &constraints_update(&constraints_union(c1, c2), (ty1, Type::Num)),
                    (ty2, Type::Num),
                );
                Ok((Type::Num, cs))
            }
        },
        Expr::Neg(e) => match typecheck_expr(ast, *e, env, counter) {
            Ok(p) => Ok(p),
            Err(e) => return Err(e),
        },
        Expr::LetIn(v, ty, t1, t2) => {
            let (ty1, c1) = match typecheck_expr(ast, *t1, env, counter) {
                Ok(p) => p,
                Err(e) => return Err(e),
            };
            let (tx, extra) = match ty {
                Some(at) => (
                    copy_type(at),
                    constraints_update(&constraints_new(), (ty1.clone(), copy_type(at))),
                ),
                None => (ty1.clone(), constraints_new()),
            };
            let env2 = env.upd_env(v.clone(), tx);
            let (ty2, c2) = match typecheck_expr(ast, *t2, &env2, counter) {
                Ok(p) => p,
                Err(e) => return Err(e),
            };
            Ok((ty2, constraints_union(constraints_union(c1, c2), extra)))
        },
    };
    match res {
        Ok((ty, cs)) => check_node(ty, cs),
        Err(e) => Err(e),
    }
}


/// Applies a list of bindings to a type: the last binding first.
pub fn apply_subst(bs: &Vec<(String, Type)>, ty: &Type) -> (r: Type)
    ensures
        r@ == apply_bindings(bindings_model(bs@), ty@),
{
    let mut r = copy_type(ty);
    let mut i = bs.len();
    proof {
        assert(bindings_model(bs@).take(i as int) =~= bindings_model(bs@));
    }
    while i > 0
        invariant
            i <= bs.len(),
            apply_bindings(bindings_model(bs@), ty@) == apply_bindings(
                bindings_model(bs@).take(i as int),
                r@,
            ),
        decreases i,
    {
        let ghost prev = r@;
        r = subst_var(&r, &bs[i - 1].0, &bs[i - 1].1);
        proof {
            let bm = bindings_model(bs@);
            assert(bm.take(i as int).drop_last() =~= bm.take(i - 1));
            assert(bm.take(i as int).last() == bm[i - 1]);
        }
        i = i - 1;
    }
    proof {
        assert(bindings_model(bs@).take(0) =~= Seq::<(Seq<char>, SType)>::empty());
    }
    r
}

/// Infers the type of the expression `expr_id` of `ast` in `env`: constraint
/// typing, then the most general unifier of the constraints applied to the
/// type.  Fresh type variables are numbered from `*counter` on, which is at
/// least 1 so that they all have different names.  A mismatch reports the
/// pair at which unification stops, in its orientation: the left side is
/// the expected type.
pub fn typecheck(ast: &Ast, expr_id: ExprId, env: &TypeEnv, counter: &mut i32) -> (r: Result<
    Type,
    TypeError,
>)
    requires
        ast.wf(),
        expr_id < ast.exprs.len(),
        1 <= *old(counter),
        *old(counter) + term_size(term_at(ast.exprs@, expr_id as int)) <= i32::MAX,
    ensures
        match infer(term_at(ast.exprs@, expr_id as int), env@, *old(counter) as int) {
            Inferred::Typed(ty, cs, m) => r matches Ok(t) && *final(counter) == m && exists|
                bs: Seq<(Seq<char>, SType)>,
            | is_mgu(bs, cs) && t@ == apply_bindings(bs, ty),
            Inferred::Unbound(x) => r matches Err(TypeError::UnboundVariable(y)) && y@ == x,
            Inferred::Mismatch(cs) => r matches Err(TypeError::TypeMismatch { expected, found })
                && clash(expected@, found@) && head_clash(expected@, found@) && derived(
                cs,
                (expected@, found@),
            ),
        },
{
    match typecheck_expr(ast, expr_id, env, counter) {
        Err(e) => Err(e),
        Ok((ty, cs)) => match unify(&cs) {
            Ok(bs) => {
                let t = apply_subst(&bs, &ty);
                proof {
                    assert(is_mgu(bindings_model(bs@), constraint_set(cs)));
                }
                Ok(t)
            },
            Err((expected, found)) => Err(TypeError::TypeMismatch { expected, found }),
        },
    }
}

/// The empty substitution leaves a type unchanged.
pub proof fn law_empty_subst(t: SType)
    ensures
        apply_fn(map_subst(Map::empty()), t) == t,
        apply_bindings(Seq::empty(), t) == t,
    decreases t,
{
    match t {
        SType::Fn(a, b) => {
            law_empty_subst(*a);
            law_empty_subst(*b);
        },
        _ => {},
    }
}

/// The simultaneous substitution that a map from names to types denotes.
pub open spec fn map_subst(m: Map<Seq<char>, SType>) -> spec_fn(Seq<char>) -> SType {
    |y: Seq<char>| if m.contains_key(y) { m[y] } else { SType::Var(y) }
}

/// `ty` with every variable bound in `substs` replaced by its binding.
pub fn type_subst(ty: &Type, substs: &im::HashMap<String, Type>) -> (r: Type)
    ensures
        r@ == apply_fn(map_subst(type_map(*substs)), ty@),
    decreases ty,
{
    match ty {
        Type::Num => Type::Num,
        Type::Bool => Type::Bool,
        Type::Unit => Type::Unit,
        Type::Fn(ty1, ty2) => Type::Fn(
            Box::new(type_subst(ty1, substs)),
            Box::new(type_subst(ty2, substs)),
        ),
        Type::Tyvar(x) => match types_get(substs, x) {
            Some(t) => copy_type(t),
            None => copy_type(ty),
        },
    }
}


/// The variables of an optional type.
pub open spec fn opt_vars(t: Option<SType>) -> Set<Seq<char>> {
    match t {
        Some(t) => ty_vars(t),
        None => Set::empty(),
    }
}

/// The type variables that a term mentions: those of its annotations and
/// those of the types that `env` gives its variables.
pub open spec fn term_tyvars(t: Term, env: Map<Seq<char>, SType>) -> Set<Seq<char>>
    decreases t,
{
    match t {
        Term::Var(n) => if env.contains_key(n) {
            ty_vars(env[n])
        } else {
            Set::empty()
        },
        Term::If(a, b, c) => term_tyvars(*a, env) + term_tyvars(*b, env) + term_tyvars(*c, env),
        Term::LetIn(_, ty, a, b) => term_tyvars(*a, env) + term_tyvars(*b, env) + opt_vars(ty),
        Term::Fn(_, ty, a) => term_tyvars(*a, env) + opt_vars(ty),
        Term::App(a, b) => term_tyvars(*a, env) + term_tyvars(*b, env),
        Term::Sequence(a, b) => term_tyvars(*a, env) + term_tyvars(*b, env),
        Term::Neg(a) => term_tyvars(*a, env),
        Term::BinOp(_, a, b) => term_tyvars(*a, env) + term_tyvars(*b, env),
        _ => Set::empty(),
    }
}

/// The type variables that the expression `id` mentions.
pub fn tyvars_in(ast: &Ast, id: ExprId, env: &TypeEnv) -> (r: im::HashSet<String>)
    requires
        ast.wf(),
        id < ast.exprs.len(),
    ensures
        name_set(r) == term_tyvars(term_at(ast.exprs@, id as int), env@),
    decreases id,
{
    proof {
        assert(node_wf(ast.exprs@[id as int], id as int));
    }
    match &ast.exprs[id] {
        Expr::Var(n) => {
            if let Some(v) = env.get_env(n.clone()) {
                tyvars_in_ty(&v)
            } else {
                names_new()
            }
        },
        Expr::Num(_) | Expr::Bool(_) | Expr::Unit => names_new(),
        Expr::If(t1, t2, t3) => names_union(
            names_union(tyvars_in(ast, *t1, env), tyvars_in(ast, *t2, env)),
            tyvars_in(ast, *t3, env),
        ),
        Expr::LetIn(_, ty, t1, t2) => {
            let acc = names_union(tyvars_in(ast, *t1, env), tyvars_in(ast, *t2, env));
            if let Some(v) = ty {
                names_union(acc, tyvars_in_ty(v))
            } else {
                acc
            }
        },
        Expr::Fn(_, ty, t1) => {
            let acc = tyvars_in(ast, *t1, env);
            if let Some(v) = ty {
                names_union(acc, tyvars_in_ty(v))
            } else {
                acc
            }
        },
        Expr::App(t1, t2) => names_union(tyvars_in(ast, *t1, env), tyvars_in(ast, *t2, env)),
        Expr::Sequence(t1, t2) => names_union(tyvars_in(ast, *t1, env), tyvars_in(ast, *t2, env)),
        Expr::Neg(t1) => tyvars_in(ast, *t1, env),
        Expr::BinOp(_, t1, t2) => names_union(tyvars_in(ast, *t1, env), tyvars_in(ast, *t2, env)),
    }
}

/// The names collected by [`fvs`]: `acc` with the variables of the term
/// added, where a binder removes its name from everything gathered inside
/// and after its scope.
pub open spec fn spec_fvs(t: Term, acc: Set<Seq<char>>) -> Set<Seq<char>>
    decreases t,
{
    match t {
        Term::Var(n) => acc.insert(n),
        Term::If(e1, e2, e3) => spec_fvs(*e1, spec_fvs(*e2, spec_fvs(*e3, acc))),
        Term::LetIn(v, _, e1, e2) => spec_fvs(*e1, spec_fvs(*e2, acc).remove(v)),
        Term::Fn(v, _, e1) => spec_fvs(*e1, acc).remove(v),
        Term::App(e1, e2) => spec_fvs(*e1, spec_fvs(*e2, acc)),
        Term::Sequence(e1, e2) => spec_fvs(*e1, spec_fvs(*e2, acc)),
        Term::Neg(e1) => spec_fvs(*e1, acc),
        Term::BinOp(_, e1, e2) => spec_fvs(*e1, spec_fvs(*e2, acc)),
        _ => acc,
    }
}

/// Adds the free variables of the expression `id` to `acc`.
pub fn fvs(ast: &Ast, id: ExprId, acc: im::HashSet<String>) -> (r: im::HashSet<String>)
    requires
        ast.wf(),
        id < ast.exprs.len(),
    ensures
        name_set(r) == spec_fvs(term_at(ast.exprs@, id as int), name_set(acc)),
    decreases id,
{
    proof {
        assert(node_wf(ast.exprs@[id as int], id as int));
    }
    match &ast.exprs[id] {
        Expr::Var(n) => names_update(&acc, n.clone()),
        Expr::Num(_) | Expr::Bool(_) | Expr::Unit => acc,
        Expr::If(e1, e2, e3) => fvs(ast, *e1, fvs(ast, *e2, fvs(ast, *e3, acc))),
        Expr::LetIn(v, _, e1, e2) => fvs(ast, *e1, names_without(&fvs(ast, *e2, acc), v)),
        Expr::Fn(v, _, e1) => names_without(&fvs(ast, *e1, acc), v),
        Expr::App(e1, e2) => fvs(ast, *e1, fvs(ast, *e2, acc)),
        Expr::Sequence(e1, e2) => fvs(ast, *e1, fvs(ast, *e2, acc)),
        Expr::Neg(e1) => fvs(ast, *e1, acc),
        Expr::BinOp(_, e1, e2) => fvs(ast, *e1, fvs(ast, *e2, acc)),
    }
}

} // verus!
