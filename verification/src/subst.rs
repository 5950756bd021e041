//! Type variables, substitutions and unifiers over the model of types.
use vstd::prelude::*;
use crate::ast::SType;

verus! {

/// The type variables that occur in `t`.
pub open spec fn ty_vars(t: SType) -> Set<Seq<char>>
    decreases t,
{
    match t {
        SType::Var(x) => set![x],
        SType::Fn(a, b) => ty_vars(*a) + ty_vars(*b),
        _ => Set::empty(),
    }
}

/// The number of constructors in `t`.
pub open spec fn ty_size(t: SType) -> nat
    decreases t,
{
    match t {
        SType::Fn(a, b) => 1 + ty_size(*a) + ty_size(*b),
        _ => 1,
    }
}

/// `t` with every occurrence of the variable `x` replaced by `r`.
pub open spec fn subst1(t: SType, x: Seq<char>, r: SType) -> SType
    decreases t,
{
    match t {
        SType::Var(y) => if y == x { r } else { t },
        SType::Fn(a, b) => SType::Fn(Box::new(subst1(*a, x, r)), Box::new(subst1(*b, x, r))),
        _ => t,
    }
}

/// `t` with every variable `y` replaced by `th(y)`, all at once.
pub open spec fn apply_fn(th: spec_fn(Seq<char>) -> SType, t: SType) -> SType
    decreases t,
{
    match t {
        SType::Var(y) => th(y),
        SType::Fn(a, b) => SType::Fn(Box::new(apply_fn(th, *a)), Box::new(apply_fn(th, *b))),
        _ => t,
    }
}

/// A substitution given as a list of bindings: the last binding is applied
/// first, then the one before it, down to the first.
pub open spec fn apply_bindings(bs: Seq<(Seq<char>, SType)>, t: SType) -> SType
    decreases bs.len(),
{
    if bs.len() == 0 {
        t
    } else {
        apply_bindings(bs.drop_last(), subst1(t, bs.last().0, bs.last().1))
    }
}

/// `th` makes the two sides of every pair of `cs` equal.
pub open spec fn unifies_seq(th: spec_fn(Seq<char>) -> SType, cs: Seq<(SType, SType)>) -> bool {
    forall|i: int| 0 <= i < cs.len() ==> apply_fn(th, #[trigger] cs[i].0) == apply_fn(th, cs[i].1)
}

/// `th` makes the two sides of every pair of `cs` equal.
pub open spec fn unifies_set(th: spec_fn(Seq<char>) -> SType, cs: Set<(SType, SType)>) -> bool {
    forall|c: (SType, SType)| cs.contains(c) ==> apply_fn(th, c.0) == apply_fn(th, c.1)
}

/// Some substitution makes the two sides of every pair of `cs` equal.
pub open spec fn unifiable(cs: Set<(SType, SType)>) -> bool {
    exists|th: spec_fn(Seq<char>) -> SType| unifies_set(th, cs)
}

/// No substitution makes `s` and `t` equal.
pub open spec fn clash(s: SType, t: SType) -> bool {
    forall|th: spec_fn(Seq<char>) -> SType| apply_fn(th, s) != apply_fn(th, t)
}

/// Why unification stops at the pair `(s, t)`: a variable that occurs in
/// the other side, or two different constructors.
pub open spec fn head_clash(s: SType, t: SType) -> bool {
    ||| s is Var && s != t && ty_vars(t).contains(s->Var_0)
    ||| t is Var && s != t && ty_vars(s).contains(t->Var_0)
    ||| !(s is Var) && !(t is Var) && !(s is Fn && t is Fn) && s != t
}

/// `d` is closed under the steps of unification: splitting a pair of
/// function types into its two parts, and replacing a variable by the other
/// side of a pair in which it stands alone.
pub open spec fn closed(d: Set<(SType, SType)>) -> bool {
    &&& forall|a1: SType, a2: SType, b1: SType, b2: SType|
        #[trigger] d.contains((SType::Fn(Box::new(a1), Box::new(a2)), SType::Fn(Box::new(b1), Box::new(b2))))
            ==> d.contains((a1, b1)) && d.contains((a2, b2))
    &&& forall|x: Seq<char>, r: SType, u: SType, w: SType|
        #![trigger subst1(u, x, r), subst1(w, x, r)]
        d.contains((SType::Var(x), r)) && d.contains((u, w)) ==> d.contains(
            (subst1(u, x, r), subst1(w, x, r)),
        )
    &&& forall|x: Seq<char>, r: SType, u: SType, w: SType|
        #![trigger subst1(u, x, r), subst1(w, x, r)]
        d.contains((r, SType::Var(x))) && d.contains((u, w)) ==> d.contains(
            (subst1(u, x, r), subst1(w, x, r)),
        )
}

/// The pair `p` arises from `cs` by the steps of unification: it lies in
/// every set that holds `cs` and is closed under those steps.
pub open spec fn derived(cs: Set<(SType, SType)>, p: (SType, SType)) -> bool {
    forall|d: Set<(SType, SType)>| cs.subset_of(d) && closed(d) ==> #[trigger] d.contains(p)
}

/// The variables that occur in the pairs of `cs`.
pub open spec fn set_vars(cs: Set<(SType, SType)>) -> Set<Seq<char>> {
    Set::new(|x: Seq<char>| exists|c: (SType, SType)| #[trigger] cs.contains(c) && (ty_vars(c.0).contains(x) || ty_vars(c.1).contains(x)))
}

/// Each binding of `bs` binds a variable of `cs`, to a type in which it does
/// not occur.
pub open spec fn bindings_from(bs: Seq<(Seq<char>, SType)>, vars: Set<Seq<char>>) -> bool {
    forall|i: int| 0 <= i < bs.len() ==> vars.contains(#[trigger] bs[i].0) && !ty_vars(bs[i].1).contains(bs[i].0)
}

/// What arises from pairs that all arise from `b` arises from `b`.
pub proof fn lemma_derived_from(a: Set<(SType, SType)>, b: Set<(SType, SType)>, p: (SType, SType))
    requires
        derived(a, p),
        forall|q: (SType, SType)| a.contains(q) ==> #[trigger] derived(b, q),
    ensures
        derived(b, p),
{
    assert forall|d: Set<(SType, SType)>| b.subset_of(d) && closed(d) implies #[trigger] d.contains(p) by {
        assert forall|q: (SType, SType)| a.contains(q) implies d.contains(q) by {
            assert(derived(b, q));
        }
        assert(a.subset_of(d));
    }
}

/// A variable of a list of pairs occurs in one of its pairs.
pub proof fn lemma_seq_vars_in_set(cs: Seq<(SType, SType)>)
    ensures
        seq_vars(cs).subset_of(set_vars(cs.to_set())),
    decreases cs.len(),
{
    if cs.len() > 0 {
        lemma_seq_vars_in_set(cs.drop_last());
        assert forall|x: Seq<char>| seq_vars(cs).contains(x) implies set_vars(cs.to_set()).contains(x) by {
            if seq_vars(cs.drop_last()).contains(x) {
                let c = choose|c: (SType, SType)| #[trigger] cs.drop_last().to_set().contains(c) && (ty_vars(c.0).contains(x) || ty_vars(c.1).contains(x));
                let i = choose|i: int| 0 <= i < cs.drop_last().len() && cs.drop_last()[i] == c;
                assert(cs[i] == c);
                assert(cs.to_set().contains(c));
            } else {
                assert(cs[cs.len() - 1] == cs.last());
                assert(cs.to_set().contains(cs.last()));
            }
        }
    }
}

/// The bindings `bs` make the two sides of every pair in `cs` equal, and every
/// unifier of `cs` is an instance of them (a most general unifier).
pub open spec fn is_mgu_seq(bs: Seq<(Seq<char>, SType)>, cs: Seq<(SType, SType)>) -> bool {
    &&& forall|i: int|
        0 <= i < cs.len() ==> apply_bindings(bs, #[trigger] cs[i].0) == apply_bindings(bs, cs[i].1)
    &&& forall|th: spec_fn(Seq<char>) -> SType, u: SType|
        unifies_seq(th, cs) ==> #[trigger] apply_fn(th, apply_bindings(bs, u)) == apply_fn(th, u)
}

/// The set version of [`is_mgu_seq`].
pub open spec fn is_mgu(bs: Seq<(Seq<char>, SType)>, cs: Set<(SType, SType)>) -> bool {
    &&& forall|c: (SType, SType)|
        cs.contains(c) ==> apply_bindings(bs, c.0) == apply_bindings(bs, c.1)
    &&& forall|th: spec_fn(Seq<char>) -> SType, u: SType|
        unifies_set(th, cs) ==> #[trigger] apply_fn(th, apply_bindings(bs, u)) == apply_fn(th, u)
}

/// The variables of all pairs of `cs`.
pub open spec fn seq_vars(cs: Seq<(SType, SType)>) -> Set<Seq<char>>
    decreases cs.len(),
{
    if cs.len() == 0 {
        Set::empty()
    } else {
        seq_vars(cs.drop_last()) + ty_vars(cs.last().0) + ty_vars(cs.last().1)
    }
}

/// The total size of all pairs of `cs`.
pub open spec fn seq_size(cs: Seq<(SType, SType)>) -> nat
    decreases cs.len(),
{
    if cs.len() == 0 {
        0
    } else {
        seq_size(cs.drop_last()) + ty_size(cs.last().0) + ty_size(cs.last().1)
    }
}

/// Replaces `x` by `r` on both sides of every pair.
pub open spec fn subst_pairs(cs: Seq<(SType, SType)>, x: Seq<char>, r: SType) -> Seq<(SType, SType)> {
    cs.map_values(|c: (SType, SType)| (subst1(c.0, x, r), subst1(c.1, x, r)))
}

pub proof fn lemma_ty_vars_finite(t: SType)
    ensures
        ty_vars(t).finite(),
    decreases t,
{
    if let SType::Fn(a, b) = t {
        lemma_ty_vars_finite(*a);
        lemma_ty_vars_finite(*b);
    }
}

pub proof fn lemma_seq_vars_finite(cs: Seq<(SType, SType)>)
    ensures
        seq_vars(cs).finite(),
    decreases cs.len(),
{
    if cs.len() > 0 {
        lemma_seq_vars_finite(cs.drop_last());
        lemma_ty_vars_finite(cs.last().0);
        lemma_ty_vars_finite(cs.last().1);
    }
}

/// Pushing a pair adds its variables and its size.
pub proof fn lemma_seq_push(cs: Seq<(SType, SType)>, c: (SType, SType))
    ensures
        seq_vars(cs.push(c)) == seq_vars(cs) + ty_vars(c.0) + ty_vars(c.1),
        seq_size(cs.push(c)) == seq_size(cs) + ty_size(c.0) + ty_size(c.1),
{
    assert(cs.push(c).drop_last() =~= cs);
}

/// After replacing `x` by `r` everywhere, the variables are those of `cs`
/// without `x`, and possibly those of `r`.
pub proof fn lemma_subst_pairs_vars(cs: Seq<(SType, SType)>, x: Seq<char>, r: SType)
    ensures
        seq_vars(subst_pairs(cs, x, r)).subset_of(seq_vars(cs).remove(x) + ty_vars(r)),
    decreases cs.len(),
{
    if cs.len() > 0 {
        let p = cs.drop_last();
        lemma_subst_pairs_vars(p, x, r);
        assert(subst_pairs(cs, x, r).drop_last() =~= subst_pairs(p, x, r));
        lemma_subst_vars(cs.last().0, x, r);
        lemma_subst_vars(cs.last().1, x, r);
    }
}

pub proof fn lemma_size_pos(t: SType)
    ensures
        ty_size(t) >= 1,
{
}

/// Substituting a value that `th` gives the variable itself changes nothing
/// under `th`.
pub proof fn lemma_subst_under(th: spec_fn(Seq<char>) -> SType, u: SType, x: Seq<char>, r: SType)
    requires
        th(x) == apply_fn(th, r),
    ensures
        apply_fn(th, subst1(u, x, r)) == apply_fn(th, u),
    decreases u,
{
    if let SType::Fn(a, b) = u {
        lemma_subst_under(th, *a, x, r);
        lemma_subst_under(th, *b, x, r);
    }
}

/// Substituting for a variable that does not occur changes nothing.
pub proof fn lemma_subst_absent(u: SType, x: Seq<char>, r: SType)
    requires
        !ty_vars(u).contains(x),
    ensures
        subst1(u, x, r) == u,
    decreases u,
{
    if let SType::Fn(a, b) = u {
        lemma_subst_absent(*a, x, r);
        lemma_subst_absent(*b, x, r);
    }
}

/// After substitution, the variables are those of `u` without `x`, and
/// possibly those of `r`.
pub proof fn lemma_subst_vars(u: SType, x: Seq<char>, r: SType)
    ensures
        ty_vars(subst1(u, x, r)).subset_of(ty_vars(u).remove(x) + ty_vars(r)),
    decreases u,
{
    if let SType::Fn(a, b) = u {
        lemma_subst_vars(*a, x, r);
        lemma_subst_vars(*b, x, r);
    }
}

/// A variable that occurs strictly inside `t` is smaller than `t` under every
/// substitution.
pub proof fn lemma_occurs_size(th: spec_fn(Seq<char>) -> SType, t: SType, x: Seq<char>)
    requires
        ty_vars(t).contains(x),
        t != SType::Var(x),
    ensures
        ty_size(apply_fn(th, t)) > ty_size(th(x)),
    decreases t,
{
    match t {
        SType::Fn(a, b) => {
            if ty_vars(*a).contains(x) {
                if *a != SType::Var(x) {
                    lemma_occurs_size(th, *a, x);
                }
            } else {
                if *b != SType::Var(x) {
                    lemma_occurs_size(th, *b, x);
                }
            }
        },
        _ => {},
    }
}

/// Applying bindings commutes with the function-type constructor.
pub proof fn lemma_bindings_fn(bs: Seq<(Seq<char>, SType)>, a: SType, b: SType)
    ensures
        apply_bindings(bs, SType::Fn(Box::new(a), Box::new(b))) == SType::Fn(
            Box::new(apply_bindings(bs, a)),
            Box::new(apply_bindings(bs, b)),
        ),
    decreases bs.len(),
{
    if bs.len() > 0 {
        lemma_bindings_fn(
            bs.drop_last(),
            subst1(a, bs.last().0, bs.last().1),
            subst1(b, bs.last().0, bs.last().1),
        );
    }
}

/// Applying bindings leaves a type without variables unchanged.
pub proof fn lemma_bindings_base(bs: Seq<(Seq<char>, SType)>, t: SType)
    requires
        t is Num || t is Bool || t is Unit,
    ensures
        apply_bindings(bs, t) == t,
    decreases bs.len(),
{
    if bs.len() > 0 {
        lemma_bindings_base(bs.drop_last(), t);
    }
}

/// Bindings act as the simultaneous substitution that maps each variable to
/// what the bindings make of it.
pub proof fn lemma_bindings_as_fn(bs: Seq<(Seq<char>, SType)>, u: SType)
    ensures
        apply_bindings(bs, u) == apply_fn(|y: Seq<char>| apply_bindings(bs, SType::Var(y)), u),
    decreases u,
{
    match u {
        SType::Fn(a, b) => {
            lemma_bindings_fn(bs, *a, *b);
            lemma_bindings_as_fn(bs, *a);
            lemma_bindings_as_fn(bs, *b);
        },
        SType::Var(_) => {},
        _ => {
            lemma_bindings_base(bs, u);
        },
    }
}


/// Bindings with one more binding, applied before the others.
pub proof fn lemma_bindings_push(bs: Seq<(Seq<char>, SType)>, x: Seq<char>, r: SType, u: SType)
    ensures
        apply_bindings(bs.push((x, r)), u) == apply_bindings(bs, subst1(u, x, r)),
{
    assert(bs.push((x, r)).drop_last() =~= bs);
}

/// Unifiers of a constraint list with one more pair.
pub proof fn lemma_unifies_push(
    th: spec_fn(Seq<char>) -> SType,
    rest: Seq<(SType, SType)>,
    c: (SType, SType),
)
    ensures
        unifies_seq(th, rest.push(c)) <==> (unifies_seq(th, rest) && apply_fn(th, c.0) == apply_fn(
            th,
            c.1,
        )),
{
    let cs = rest.push(c);
    if unifies_seq(th, cs) {
        assert forall|i: int| 0 <= i < rest.len() implies apply_fn(th, #[trigger] rest[i].0)
            == apply_fn(th, rest[i].1) by {
            assert(cs[i] == rest[i]);
        }
        assert(cs[rest.len() as int] == c);
    }
    if unifies_seq(th, rest) && apply_fn(th, c.0) == apply_fn(th, c.1) {
        assert forall|i: int| 0 <= i < cs.len() implies apply_fn(th, #[trigger] cs[i].0)
            == apply_fn(th, cs[i].1) by {
            if i < rest.len() {
                assert(cs[i] == rest[i]);
            }
        }
    }
}

/// An equal pair adds nothing to the constraints.
pub proof fn lemma_eq_step(rest: Seq<(SType, SType)>, s: SType, bs: Seq<(Seq<char>, SType)>)
    ensures
        forall|th: spec_fn(Seq<char>) -> SType|
            unifies_seq(th, rest.push((s, s))) <==> #[trigger] unifies_seq(th, rest),
        is_mgu_seq(bs, rest) ==> is_mgu_seq(bs, rest.push((s, s))),
{
    let cs = rest.push((s, s));
    assert forall|th: spec_fn(Seq<char>) -> SType|
        unifies_seq(th, cs) <==> #[trigger] unifies_seq(th, rest) by {
        lemma_unifies_push(th, rest, (s, s));
    }
    if is_mgu_seq(bs, rest) {
        assert forall|i: int| 0 <= i < cs.len() implies apply_bindings(bs, #[trigger] cs[i].0)
            == apply_bindings(bs, cs[i].1) by {
            if i < rest.len() {
                assert(cs[i] == rest[i]);
            }
        }
    }
}

/// Binding `x` to `r`, where `x` does not occur in `r`, solves a pair
/// `(x, r)` or `(r, x)` and turns the other constraints into their image.
pub proof fn lemma_bind_step(
    rest: Seq<(SType, SType)>,
    x: Seq<char>,
    r: SType,
    c: (SType, SType),
    bs: Seq<(Seq<char>, SType)>,
)
    requires
        c == (SType::Var(x), r) || c == (r, SType::Var(x)),
        !ty_vars(r).contains(x),
    ensures
        forall|th: spec_fn(Seq<char>) -> SType|
            unifies_seq(th, rest.push(c)) ==> #[trigger] unifies_seq(th, subst_pairs(rest, x, r)),
        is_mgu_seq(bs, subst_pairs(rest, x, r)) ==> is_mgu_seq(bs.push((x, r)), rest.push(c)),
{
    let cs = rest.push(c);
    let w = subst_pairs(rest, x, r);
    assert forall|th: spec_fn(Seq<char>) -> SType|
        unifies_seq(th, cs) implies #[trigger] unifies_seq(th, w) by {
        lemma_unifies_push(th, rest, c);
        assert(th(x) == apply_fn(th, r));
        assert forall|i: int| 0 <= i < w.len() implies apply_fn(th, #[trigger] w[i].0) == apply_fn(
            th,
            w[i].1,
        ) by {
            lemma_subst_under(th, rest[i].0, x, r);
            lemma_subst_under(th, rest[i].1, x, r);
        }
    }
    if is_mgu_seq(bs, w) {
        let bs2 = bs.push((x, r));
        assert forall|i: int| 0 <= i < cs.len() implies apply_bindings(bs2, #[trigger] cs[i].0)
            == apply_bindings(bs2, cs[i].1) by {
            lemma_bindings_push(bs, x, r, cs[i].0);
            lemma_bindings_push(bs, x, r, cs[i].1);
            if i < rest.len() {
                assert(cs[i] == rest[i]);
                assert(w[i].0 == subst1(rest[i].0, x, r));
            } else {
                assert(cs[i] == c);
                lemma_subst_absent(r, x, r);
            }
        }
        assert forall|th: spec_fn(Seq<char>) -> SType, u: SType|
            unifies_seq(th, cs) implies #[trigger] apply_fn(th, apply_bindings(bs2, u))
            == apply_fn(th, u) by {
            lemma_unifies_push(th, rest, c);
            assert(unifies_seq(th, w));
            lemma_bindings_push(bs, x, r, u);
            assert(apply_fn(th, apply_bindings(bs, subst1(u, x, r))) == apply_fn(
                th,
                subst1(u, x, r),
            ));
            lemma_subst_under(th, u, x, r);
        }
    }
}

/// A pair of function types is equivalent to the pairs of their parts.
pub proof fn lemma_fn_step(
    rest: Seq<(SType, SType)>,
    s1: SType,
    s2: SType,
    t1: SType,
    t2: SType,
    bs: Seq<(Seq<char>, SType)>,
)
    ensures
        forall|th: spec_fn(Seq<char>) -> SType|
            unifies_seq(
                th,
                rest.push(
                    (
                        SType::Fn(Box::new(s1), Box::new(s2)),
                        SType::Fn(Box::new(t1), Box::new(t2)),
                    ),
                ),
            ) <==> #[trigger] unifies_seq(th, rest.push((s2, t2)).push((s1, t1))),
        is_mgu_seq(bs, rest.push((s2, t2)).push((s1, t1))) ==> is_mgu_seq(
            bs,
            rest.push(
                (SType::Fn(Box::new(s1), Box::new(s2)), SType::Fn(Box::new(t1), Box::new(t2))),
            ),
        ),
{
    let c = (SType::Fn(Box::new(s1), Box::new(s2)), SType::Fn(Box::new(t1), Box::new(t2)));
    let cs = rest.push(c);
    let w = rest.push((s2, t2)).push((s1, t1));
    assert forall|th: spec_fn(Seq<char>) -> SType|
        unifies_seq(th, cs) <==> #[trigger] unifies_seq(th, w) by {
        lemma_unifies_push(th, rest, c);
        lemma_unifies_push(th, rest, (s2, t2));
        lemma_unifies_push(th, rest.push((s2, t2)), (s1, t1));
    }
    if is_mgu_seq(bs, w) {
        assert forall|i: int| 0 <= i < cs.len() implies apply_bindings(bs, #[trigger] cs[i].0)
            == apply_bindings(bs, cs[i].1) by {
            if i < rest.len() {
                assert(cs[i] == rest[i]);
                assert(w[i] == rest[i]);
            } else {
                assert(cs[i] == c);
                lemma_bindings_fn(bs, s1, s2);
                lemma_bindings_fn(bs, t1, t2);
                assert(w[rest.len() as int] == (s2, t2));
                assert(w[rest.len() as int + 1] == (s1, t1));
            }
        }
    }
}

/// A pair that is not equal, cannot be solved by a binding and is not a pair
/// of function types has no unifier.
pub proof fn lemma_clash(s: SType, t: SType)
    requires
        s != t,
        !(s is Var && !ty_vars(t).contains(s->Var_0)),
        !(t is Var && !ty_vars(s).contains(t->Var_0)),
        !(s is Fn && t is Fn),
    ensures
        clash(s, t),
{
    assert forall|th: spec_fn(Seq<char>) -> SType| apply_fn(th, s) != apply_fn(th, t) by {
        if let SType::Var(x) = s {
            lemma_occurs_size(th, t, x);
        } else if let SType::Var(y) = t {
            lemma_occurs_size(th, s, y);
        }
    }
}

/// The empty list of bindings is a most general unifier of no constraints.
pub proof fn lemma_mgu_empty()
    ensures
        is_mgu_seq(Seq::empty(), Seq::empty()),
{
}

/// From a list to the set of its elements.
pub proof fn lemma_mgu_to_set(bs: Seq<(Seq<char>, SType)>, cs: Seq<(SType, SType)>)
    ensures
        is_mgu_seq(bs, cs) ==> is_mgu(bs, cs.to_set()),
        forall|th: spec_fn(Seq<char>) -> SType|
            #[trigger] unifies_set(th, cs.to_set()) <==> unifies_seq(th, cs),
{
    assert forall|th: spec_fn(Seq<char>) -> SType|
        #[trigger] unifies_set(th, cs.to_set()) <==> unifies_seq(th, cs) by {
        if unifies_set(th, cs.to_set()) {
            assert forall|i: int| 0 <= i < cs.len() implies apply_fn(th, #[trigger] cs[i].0)
                == apply_fn(th, cs[i].1) by {
                assert(cs.to_set().contains(cs[i]));
            }
        }
        if unifies_seq(th, cs) {
            assert forall|c: (SType, SType)| cs.to_set().contains(c) implies apply_fn(th, c.0)
                == apply_fn(th, c.1) by {
                let i = choose|i: int| 0 <= i < cs.len() && cs[i] == c;
            }
        }
    }
    if is_mgu_seq(bs, cs) {
        assert forall|c: (SType, SType)| cs.to_set().contains(c) implies apply_bindings(bs, c.0)
            == apply_bindings(bs, c.1) by {
            let i = choose|i: int| 0 <= i < cs.len() && cs[i] == c;
        }
    }
}

/// A most general unifier witnesses that its constraints are unifiable.
pub proof fn lemma_mgu_unifiable(bs: Seq<(Seq<char>, SType)>, cs: Set<(SType, SType)>)
    requires
        is_mgu(bs, cs),
    ensures
        unifiable(cs),
{
    let th = |y: Seq<char>| apply_bindings(bs, SType::Var(y));
    assert forall|c: (SType, SType)| cs.contains(c) implies apply_fn(th, c.0) == apply_fn(
        th,
        c.1,
    ) by {
        lemma_bindings_as_fn(bs, c.0);
        lemma_bindings_as_fn(bs, c.1);
    }
    assert(unifies_set(th, cs));
}

} // verus!
