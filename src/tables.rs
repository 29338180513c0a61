//! The concurrent set that holds one layer of endpoints and the concurrent
//! map that holds the known redirects, both from `flurry`.
//!
//! Each operation that changes a collection takes it by `&mut`, so that the
//! calculator is the only writer while it merges a round and the contents
//! can be described before and after the call.

use vstd::prelude::*;

verus! {

#[verifier::external_type_specification]
#[verifier::external_body]
#[verifier::reject_recursive_types(T)]
#[verifier::reject_recursive_types(S)]
pub struct ExHashSet<T, S>(flurry::HashSet<T, S>);

#[verifier::external_type_specification]
#[verifier::external_body]
#[verifier::reject_recursive_types(K)]
#[verifier::reject_recursive_types(V)]
#[verifier::reject_recursive_types(S)]
pub struct ExHashMap<K, V, S>(flurry::HashMap<K, V, S>);

#[verifier::external_type_specification]
#[verifier::external_body]
pub struct ExDefaultHashBuilder(flurry::DefaultHashBuilder);

/// A set of endpoint names.
pub type EndpointSet = Set<Seq<char>>;

/// Endpoint names mapped to endpoint names.
pub type EndpointMap = Map<Seq<char>, Seq<char>>;

/// The endpoints that a layer holds.
pub uninterp spec fn layer_contents(s: flurry::HashSet<String>) -> EndpointSet;

/// The entries of a redirect table.
pub uninterp spec fn table_contents(m: flurry::HashMap<String, String>) -> EndpointMap;

/// Relies on `flurry::HashSet::new`: the set starts empty.
#[verifier::external_body]
pub(crate) fn layer_new() -> (r: flurry::HashSet<String>)
    ensures
        layer_contents(r) == EndpointSet::empty(),
{
    flurry::HashSet::new()
}

/// Relies on `flurry::HashSet::insert`: afterwards the value is a member,
/// and nothing else changed.
#[verifier::external_body]
pub(crate) fn layer_insert(s: &mut flurry::HashSet<String>, v: String)
    ensures
        layer_contents(*final(s)) == layer_contents(*old(s)).insert(v@),
{
    let guard = s.guard();
    s.insert(v, &guard);
}

/// Relies on `flurry::HashSet::remove`: afterwards the value is no member,
/// and nothing else changed.
#[verifier::external_body]
pub(crate) fn layer_remove(s: &mut flurry::HashSet<String>, v: &String)
    ensures
        layer_contents(*final(s)) == layer_contents(*old(s)).remove(v@),
{
    let guard = s.guard();
    s.remove(v, &guard);
}

/// Relies on `flurry::HashSet::contains`.
#[verifier::external_body]
pub(crate) fn layer_has(s: &flurry::HashSet<String>, v: &String) -> (r: bool)
    ensures
        r == layer_contents(*s).contains(v@),
{
    let guard = s.guard();
    s.contains(v, &guard)
}

/// Relies on `flurry::HashSet::iter`: it visits every member once, in an
/// order that the set does not fix.
#[verifier::external_body]
pub(crate) fn layer_list(s: &flurry::HashSet<String>) -> (r: Vec<String>)
    ensures
        r@.map_values(|e: String| e@).no_duplicates(),
        r@.map_values(|e: String| e@).to_set() == layer_contents(*s),
{
    let guard = s.guard();
    s.iter(&guard).cloned().collect()
}

/// Relies on `flurry::HashMap::new`: the map starts empty.
#[verifier::external_body]
pub(crate) fn table_new() -> (r: flurry::HashMap<String, String>)
    ensures
        table_contents(r) == EndpointMap::empty(),
{
    flurry::HashMap::new()
}

/// Relies on `flurry::HashMap::get`.
#[verifier::external_body]
pub(crate) fn table_get(m: &flurry::HashMap<String, String>, k: &String) -> (r: Option<String>)
    ensures
        match r {
            Some(v) => table_contents(*m).contains_key(k@) && table_contents(*m)[k@] == v@,
            None => !table_contents(*m).contains_key(k@),
        },
{
    let guard = m.guard();
    m.get(k, &guard).cloned()
}

/// Relies on `flurry::HashMap::try_insert`: the entry is added unless the key
/// is already present, in which case the map is left unchanged.
#[verifier::external_body]
pub(crate) fn table_try_insert(m: &mut flurry::HashMap<String, String>, k: String, v: String)
    ensures
        table_contents(*final(m)) == if table_contents(*old(m)).contains_key(k@) {
            table_contents(*old(m))
        } else {
            table_contents(*old(m)).insert(k@, v@)
        },
{
    let guard = m.guard();
    let _ = m.try_insert(k, v, &guard);
}

/// Relies on `flurry::HashMap::iter`: it visits every entry once, in an
/// order that the map does not fix.
#[verifier::external_body]
pub(crate) fn table_list(m: &flurry::HashMap<String, String>) -> (r: Vec<(String, String)>)
    ensures
        r@.map_values(|e: (String, String)| e.0@).no_duplicates(),
        forall|i: int|
            0 <= i < r@.len() ==> #[trigger] table_contents(*m).contains_key(r@[i].0@)
                && table_contents(*m)[r@[i].0@] == r@[i].1@,
        forall|k: Seq<char>|
            #[trigger] table_contents(*m).contains_key(k) ==> exists|i: int|
                0 <= i < r@.len() && #[trigger] r@[i].0@ == k,
{
    let guard = m.guard();
    m.iter(&guard).map(|(k, v)| (k.clone(), v.clone())).collect()
}

} // verus!
