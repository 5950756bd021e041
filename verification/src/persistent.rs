//! The persistent hash collections of the `im` crate, as the type checker uses
//! them.  Everything here is trusted: each item states what the `im` source
//! shows of the function it calls.  The element types hash and compare by
//! value (`Type` and `String` derive or have structural `Hash` and `Eq`), so a
//! collection holds at most one element of each model.
use vstd::prelude::*;
use crate::ast::{SType, Type};

verus! {

/// `im::HashSet`, a persistent hash set.
#[verifier::external_type_specification]
#[verifier::external_body]
#[verifier::reject_recursive_types(A)]
#[verifier::reject_recursive_types(S)]
pub struct ExPersistentSet<A, S>(im::HashSet<A, S>);

/// `im::HashMap`, a persistent hash map.
#[verifier::external_type_specification]
#[verifier::external_body]
#[verifier::reject_recursive_types(K)]
#[verifier::reject_recursive_types(V)]
#[verifier::reject_recursive_types(S)]
pub struct ExPersistentMap<K, V, S>(im::HashMap<K, V, S>);

/// The pairs of types that a set of constraints holds, each side by its model.
pub uninterp spec fn constraint_set(s: im::HashSet<(Type, Type)>) -> Set<(SType, SType)>;

/// The names that a set of strings holds.
pub uninterp spec fn name_set(s: im::HashSet<String>) -> Set<Seq<char>>;

/// The bindings that a map from names to types holds.
pub uninterp spec fn type_map(m: im::HashMap<String, Type>) -> Map<Seq<char>, SType>;

/// `im::HashSet::new`: the empty set.
#[verifier::external_body]
pub(crate) fn constraints_new() -> (r: im::HashSet<(Type, Type)>)
    ensures
        constraint_set(r) == Set::<(SType, SType)>::empty(),
{
    im::HashSet::new()
}

/// `im::HashSet::update`: a new set that also holds `c`.
#[verifier::external_body]
pub(crate) fn constraints_update(s: &im::HashSet<(Type, Type)>, c: (Type, Type)) -> (r: im::HashSet<
    (Type, Type),
>)
    ensures
        constraint_set(r) == constraint_set(*s).insert((c.0@, c.1@)),
{
    s.update(c)
}

/// `im::HashSet::union`: the set of the elements of both.
#[verifier::external_body]
pub(crate) fn constraints_union(a: im::HashSet<(Type, Type)>, b: im::HashSet<(Type, Type)>) -> (r:
    im::HashSet<(Type, Type)>)
    ensures
        constraint_set(r) == constraint_set(a) + constraint_set(b),
{
    a.union(b)
}

/// `im::HashSet::iter`, collected: the elements in the set's own order, which
/// depends on the hasher's seed; nothing is stated of that order.
#[verifier::external_body]
pub(crate) fn constraints_elements(s: &im::HashSet<(Type, Type)>) -> (r: Vec<(Type, Type)>)
    ensures
        r@.map_values(|p: (Type, Type)| (p.0@, p.1@)).to_set() == constraint_set(*s),
{
    s.iter().cloned().collect()
}

/// `im::HashSet::new`: the empty set.
#[verifier::external_body]
pub(crate) fn names_new() -> (r: im::HashSet<String>)
    ensures
        name_set(r) == Set::<Seq<char>>::empty(),
{
    im::HashSet::new()
}

/// `im::HashSet::update`: a new set that also holds `x`.
#[verifier::external_body]
pub(crate) fn names_update(s: &im::HashSet<String>, x: String) -> (r: im::HashSet<String>)
    ensures
        name_set(r) == name_set(*s).insert(x@),
{
    s.update(x)
}

/// `im::HashSet::union`: the set of the elements of both.
#[verifier::external_body]
pub(crate) fn names_union(a: im::HashSet<String>, b: im::HashSet<String>) -> (r: im::HashSet<String>)
    ensures
        name_set(r) == name_set(a) + name_set(b),
{
    a.union(b)
}

/// `im::HashSet::contains`: whether the set holds `x`.
#[verifier::external_body]
pub(crate) fn names_contains(s: &im::HashSet<String>, x: &String) -> (r: bool)
    ensures
        r == name_set(*s).contains(x@),
{
    s.contains(x)
}

/// `im::HashSet::without`: a new set that holds everything but `x`.
#[verifier::external_body]
pub(crate) fn names_without(s: &im::HashSet<String>, x: &String) -> (r: im::HashSet<String>)
    ensures
        name_set(r) == name_set(*s).remove(x@),
{
    s.without(x)
}

/// `im::HashMap::new`: the empty map.
#[verifier::external_body]
pub(crate) fn types_new() -> (r: im::HashMap<String, Type>)
    ensures
        type_map(r) =~= Map::empty(),
{
    im::HashMap::new()
}

/// `im::HashMap::update`: a new map in which `k` is bound to `v`.
#[verifier::external_body]
pub(crate) fn types_update(m: &im::HashMap<String, Type>, k: String, v: Type) -> (r: im::HashMap<
    String,
    Type,
>)
    ensures
        type_map(r) == type_map(*m).insert(k@, v@),
{
    m.update(k, v)
}

/// `im::HashMap::get`: the type bound to `k`, if any.
#[verifier::external_body]
pub(crate) fn types_get<'a>(m: &'a im::HashMap<String, Type>, k: &String) -> (r: Option<&'a Type>)
    ensures
        r is Some <==> type_map(*m).contains_key(k@),
        r matches Some(t) ==> t@ == type_map(*m)[k@],
{
    m.get(k)
}

/// `im::HashMap::clone`: a map with the same bindings.
#[verifier::external_body]
pub(crate) fn types_clone(m: &im::HashMap<String, Type>) -> (r: im::HashMap<String, Type>)
    ensures
        type_map(r) == type_map(*m),
{
    m.clone()
}

} // verus!
