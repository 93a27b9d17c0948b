//! The persistent hash maps and sets of the `im` crate, as the lowerings and
//! interpreters use them, with what their contents are.

use vstd::prelude::*;

verus! {

/// `im::HashMap`, a persistent hash map.
#[verifier::external_type_specification]
#[verifier::external_body]
#[verifier::reject_recursive_types(K)]
#[verifier::reject_recursive_types(V)]
#[verifier::reject_recursive_types(S)]
pub struct ExImHashMap<K, V, S>(im::HashMap<K, V, S>);

/// `im::HashSet`, a persistent hash set.
#[verifier::external_type_specification]
#[verifier::external_body]
#[verifier::reject_recursive_types(A)]
#[verifier::reject_recursive_types(S)]
pub struct ExImHashSet<A, S>(im::HashSet<A, S>);

/// What a map from names to names holds, keys and values taken by their characters.
pub uninterp spec fn name_map_contents(m: im::HashMap<String, String>) -> Map<Seq<char>, Seq<char>>;

/// What a map from names to integers holds, keys taken by their characters.
pub uninterp spec fn value_map_contents(m: im::HashMap<String, i64>) -> Map<Seq<char>, i64>;

/// What a set of names holds, each taken by its characters.
pub uninterp spec fn name_set_contents(s: im::HashSet<String>) -> Set<Seq<char>>;

/// `im::HashMap::unit`: the map with the single entry `k -> v`.
#[verifier::external_body]
pub(crate) fn name_map_unit(k: String, v: String) -> (res: im::HashMap<String, String>)
    ensures
        name_map_contents(res) == Map::empty().insert(k@, v@),
{
    im::HashMap::unit(k, v)
}

/// `im::HashMap::update`: a new map that holds what `m` holds with `k -> v` added,
/// replacing any earlier entry for `k`; `m` itself is left as it was.
#[verifier::external_body]
pub(crate) fn name_map_update(m: &im::HashMap<String, String>, k: String, v: String) -> (r: im::HashMap<String, String>)
    ensures
        name_map_contents(r) == name_map_contents(*m).insert(k@, v@),
{
    m.update(k, v)
}

/// `im::HashMap::get`: the value stored for `k`, if there is one.
#[verifier::external_body]
pub(crate) fn name_map_get<'a>(m: &'a im::HashMap<String, String>, k: &String) -> (r: Option<&'a String>)
    ensures
        r.is_some() <==> name_map_contents(*m).contains_key(k@),
        r.is_some() ==> r.unwrap()@ == name_map_contents(*m)[k@],
{
    m.get(k)
}

/// `im::HashMap::unit`: the map with the single entry `k -> v`.
#[verifier::external_body]
pub(crate) fn value_map_unit(k: String, v: i64) -> (res: im::HashMap<String, i64>)
    ensures
        value_map_contents(res) == Map::empty().insert(k@, v),
{
    im::HashMap::unit(k, v)
}

/// `im::HashMap::update`: a new map that holds what `m` holds with `k -> v` added,
/// replacing any earlier entry for `k`; `m` itself is left as it was.
#[verifier::external_body]
pub(crate) fn value_map_update(m: &im::HashMap<String, i64>, k: String, v: i64) -> (r: im::HashMap<String, i64>)
    ensures
        value_map_contents(r) == value_map_contents(*m).insert(k@, v),
{
    m.update(k, v)
}

/// `im::HashMap::get`: the value stored for `k`, if there is one.
#[verifier::external_body]
pub(crate) fn value_map_get(m: &im::HashMap<String, i64>, k: &String) -> (r: Option<i64>)
    ensures
        r.is_some() <==> value_map_contents(*m).contains_key(k@),
        r.is_some() ==> r.unwrap() == value_map_contents(*m)[k@],
{
    m.get(k).copied()
}

/// `im::HashSet::unit`: the set that holds `a` alone.
#[verifier::external_body]
pub(crate) fn name_set_unit(a: String) -> (s: im::HashSet<String>)
    ensures
        name_set_contents(s) == Set::<Seq<char>>::empty().insert(a@),
{
    im::HashSet::unit(a)
}

/// `im::HashSet::update`: a new set that holds what `s` holds and `a`; `s` is left as it was.
#[verifier::external_body]
pub(crate) fn name_set_update(s: &im::HashSet<String>, a: String) -> (r: im::HashSet<String>)
    ensures
        name_set_contents(r) == name_set_contents(*s).insert(a@),
{
    s.update(a)
}

/// `im::HashSet::contains`: whether `a` is in `s`.
#[verifier::external_body]
pub(crate) fn name_set_contains(s: &im::HashSet<String>, a: &String) -> (r: bool)
    ensures
        r == name_set_contents(*s).contains(a@),
{
    s.contains(a)
}

} // verus!
