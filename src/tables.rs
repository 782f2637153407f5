//! Persistent hash maps from the `im` crate, as the peer table uses them.
//!
//! Each instance that the table needs has a name for what it holds: a map of
//! plain values, keyed by the view of the key. The wrappers below state what
//! each `im` method does to that map.
use crate::connection::AgentId;
use vstd::prelude::*;

verus! {

#[verifier::external_type_specification]
#[verifier::external_body]
#[verifier::reject_recursive_types(K)]
#[verifier::reject_recursive_types(V)]
#[verifier::reject_recursive_types(S)]
pub struct ExImHashMap<K, V, S>(im::HashMap<K, V, S>);

/// Agent to distance: the peer list last heard on one link.
pub type Reach = im::HashMap<AgentId, usize>;

/// Link to distance: the routes known to one agent.
pub type Routes = im::HashMap<usize, usize>;

/// Link to the peer list last heard on it.
pub type Cache = im::HashMap<usize, Reach>;

/// Agent to its routes.
pub type Links = im::HashMap<AgentId, Routes>;

/// Agent to its chosen route: link and distance.
pub type Best = im::HashMap<AgentId, (usize, usize)>;

/// What a `Reach` map holds.
pub uninterp spec fn reach_of(m: im::HashMap<AgentId, usize>) -> Map<Seq<char>, usize>;

/// What a `Routes` map holds.
pub uninterp spec fn routes_of(m: im::HashMap<usize, usize>) -> Map<usize, usize>;

/// What a `Cache` map holds, each peer list given by what it holds.
pub uninterp spec fn cache_of(m: im::HashMap<usize, im::HashMap<AgentId, usize>>) -> Map<usize, Map<Seq<char>, usize>>;

/// What a `Links` map holds, each route map given by what it holds.
pub uninterp spec fn links_of(m: im::HashMap<AgentId, im::HashMap<usize, usize>>) -> Map<Seq<char>, Map<usize, usize>>;

/// What a `Best` map holds.
pub uninterp spec fn best_of(m: im::HashMap<AgentId, (usize, usize)>) -> Map<Seq<char>, (usize, usize)>;

/// `r` lists the entries of `m`, each agent once, in some order.
pub open spec fn lists_by_name<V>(r: Seq<(AgentId, V)>, m: Map<Seq<char>, V>) -> bool {
    &&& forall|i: int| 0 <= i < r.len() ==> #[trigger] m.contains_key(r[i].0@) && m[r[i].0@] == r[i].1
    &&& forall|k: Seq<char>| #[trigger] m.contains_key(k) ==> exists|i: int| 0 <= i < r.len() && #[trigger] r[i].0@ == k
    &&& forall|i: int, j: int| 0 <= i < j < r.len() ==> r[i].0@ != r[j].0@
}

/// `r` lists the entries of `m`, each link once, in some order.
pub open spec fn lists_by_link<V>(r: Seq<(usize, V)>, m: Map<usize, V>) -> bool {
    &&& forall|i: int| 0 <= i < r.len() ==> #[trigger] m.contains_key(r[i].0) && m[r[i].0] == r[i].1
    &&& forall|k: usize| #[trigger] m.contains_key(k) ==> exists|i: int| 0 <= i < r.len() && #[trigger] r[i].0 == k
    &&& forall|i: int, j: int| 0 <= i < j < r.len() ==> r[i].0 != r[j].0
}

/// Relies on `im::HashMap::new`: the new map is empty.
#[verifier::external_body]
pub(crate) fn reach_new() -> (r: Reach)
    ensures
        reach_of(r).is_empty(),
{
    im::HashMap::new()
}

/// Relies on `im::HashMap::insert`: the key now maps to the value, other keys are kept.
#[verifier::external_body]
pub(crate) fn reach_insert(m: &mut Reach, k: AgentId, v: usize)
    ensures
        reach_of(*final(m)) == reach_of(*old(m)).insert(k@, v),
{
    m.insert(k, v);
}

/// Relies on `im::HashMap::get`: the value under the key, if any.
#[verifier::external_body]
pub(crate) fn reach_get(m: &Reach, k: &AgentId) -> (r: Option<usize>)
    ensures
        r == (if reach_of(*m).contains_key(k@) { Some(reach_of(*m)[k@]) } else { None }),
{
    m.get(k).copied()
}

/// Relies on `im::HashMap::iter`: every entry once.
#[verifier::external_body]
pub(crate) fn reach_entries(m: &Reach) -> (r: Vec<(AgentId, usize)>)
    ensures
        lists_by_name(r@, reach_of(*m)),
{
    m.iter().map(|(k, v)| (k.clone(), *v)).collect()
}

/// Relies on `im::HashMap::new`: the new map is empty.
#[verifier::external_body]
pub(crate) fn routes_new() -> (r: Routes)
    ensures
        routes_of(r).is_empty(),
{
    im::HashMap::new()
}

/// Relies on `im::HashMap::insert`: the key now maps to the value, other keys are kept.
#[verifier::external_body]
pub(crate) fn routes_insert(m: &mut Routes, k: usize, v: usize)
    ensures
        routes_of(*final(m)) == routes_of(*old(m)).insert(k, v),
{
    m.insert(k, v);
}

/// Relies on `im::HashMap::remove`: the key is gone, other keys are kept.
#[verifier::external_body]
pub(crate) fn routes_remove(m: &mut Routes, k: usize)
    ensures
        routes_of(*final(m)) == routes_of(*old(m)).remove(k),
{
    m.remove(&k);
}

/// Relies on `im::HashMap::iter`: every entry once.
#[verifier::external_body]
pub(crate) fn routes_entries(m: &Routes) -> (r: Vec<(usize, usize)>)
    ensures
        lists_by_link(r@, routes_of(*m)),
{
    m.iter().map(|(k, v)| (*k, *v)).collect()
}

/// Relies on `im::HashMap::new`: the new map is empty.
#[verifier::external_body]
pub(crate) fn cache_new() -> (r: Cache)
    ensures
        cache_of(r).is_empty(),
{
    im::HashMap::new()
}

/// Relies on `im::HashMap::insert`: the key now maps to the value, other keys are kept.
#[verifier::external_body]
pub(crate) fn cache_insert(m: &mut Cache, k: usize, v: Reach)
    ensures
        cache_of(*final(m)) == cache_of(*old(m)).insert(k, reach_of(v)),
{
    m.insert(k, v);
}

/// Relies on `im::HashMap::remove`: the key is gone, other keys are kept, and
/// the value it had comes back.
#[verifier::external_body]
pub(crate) fn cache_remove(m: &mut Cache, k: usize) -> (r: Option<Reach>)
    ensures
        cache_of(*final(m)) == cache_of(*old(m)).remove(k),
        r.is_some() == cache_of(*old(m)).contains_key(k),
        r matches Some(v) ==> reach_of(v) == cache_of(*old(m))[k],
{
    m.remove(&k)
}

/// Relies on `im::HashMap::new`: the new map is empty.
#[verifier::external_body]
pub(crate) fn links_new() -> (r: Links)
    ensures
        links_of(r).is_empty(),
{
    im::HashMap::new()
}

/// Relies on `im::HashMap::insert`: the key now maps to the value, other keys are kept.
#[verifier::external_body]
pub(crate) fn links_insert(m: &mut Links, k: AgentId, v: Routes)
    ensures
        links_of(*final(m)) == links_of(*old(m)).insert(k@, routes_of(v)),
{
    m.insert(k, v);
}

/// Relies on `im::HashMap::remove`: the key is gone, other keys are kept, and
/// the value it had comes back.
#[verifier::external_body]
pub(crate) fn links_remove(m: &mut Links, k: &AgentId) -> (r: Option<Routes>)
    ensures
        links_of(*final(m)) == links_of(*old(m)).remove(k@),
        r.is_some() == links_of(*old(m)).contains_key(k@),
        r matches Some(v) ==> routes_of(v) == links_of(*old(m))[k@],
{
    m.remove(k)
}

/// Relies on `im::HashMap::new`: the new map is empty.
#[verifier::external_body]
pub(crate) fn best_new() -> (r: Best)
    ensures
        best_of(r).is_empty(),
{
    im::HashMap::new()
}

/// Relies on `im::HashMap::insert`: the key now maps to the value, other keys are kept.
#[verifier::external_body]
pub(crate) fn best_insert(m: &mut Best, k: AgentId, v: (usize, usize))
    ensures
        best_of(*final(m)) == best_of(*old(m)).insert(k@, v),
{
    m.insert(k, v);
}

/// Relies on `im::HashMap::remove`: the key is gone, other keys are kept.
#[verifier::external_body]
pub(crate) fn best_remove(m: &mut Best, k: &AgentId)
    ensures
        best_of(*final(m)) == best_of(*old(m)).remove(k@),
{
    m.remove(k);
}

/// Relies on `im::HashMap::get`: the value under the key, if any.
#[verifier::external_body]
pub(crate) fn best_get(m: &Best, k: &AgentId) -> (r: Option<(usize, usize)>)
    ensures
        r == (if best_of(*m).contains_key(k@) { Some(best_of(*m)[k@]) } else { None }),
{
    m.get(k).copied()
}

/// Relies on `im::HashMap::iter`: every entry once.
#[verifier::external_body]
pub(crate) fn best_entries(m: &Best) -> (r: Vec<(AgentId, (usize, usize))>)
    ensures
        lists_by_name(r@, best_of(*m)),
{
    m.iter().map(|(k, v)| (k.clone(), *v)).collect()
}

} // verus!
