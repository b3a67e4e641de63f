//! Token-keyed counters held in a `dashmap::DashMap`, and what the library
//! assumes of the map's operations.

use dashmap::DashMap;
use vstd::prelude::*;

verus! {

/// `dashmap::DashMap`, a concurrent hash map, declared so that it can stand in
/// signatures and fields; its contents are seen through `counts_of`.
#[verifier::external_type_specification]
#[verifier::external_body]
#[verifier::reject_recursive_types(K)]
#[verifier::reject_recursive_types(V)]
#[verifier::reject_recursive_types(S)]
pub struct ExDashMap<K, V, S>(DashMap<K, V, S>);

/// What a counter map holds: each key, by its characters, with its count.
pub uninterp spec fn counts_of(m: DashMap<String, usize>) -> Map<Seq<char>, nat>;

/// Relies on `DashMap::new`: a new map holds nothing.
#[verifier::external_body]
pub(crate) fn new_counts() -> (r: DashMap<String, usize>)
    ensures
        counts_of(r).dom() == Set::<Seq<char>>::empty(),
{
    DashMap::new()
}

/// Relies on `DashMap::entry` and `Entry::or_insert`: the count of `key` is
/// inserted as zero where absent, then raised by one.
#[verifier::external_body]
pub(crate) fn bump(m: &mut DashMap<String, usize>, key: String)
    requires
        counts_of(*old(m)).contains_key(key@) ==> counts_of(*old(m))[key@] < usize::MAX,
    ensures
        counts_of(*final(m)) == counts_of(*old(m)).insert(
            key@,
            if counts_of(*old(m)).contains_key(key@) {
                counts_of(*old(m))[key@] + 1
            } else {
                1nat
            },
        ),
{
    *m.entry(key).or_insert(0) += 1;
}

/// Each entry of `e` is an entry of `m`, and no key is listed twice.
pub open spec fn entries_in(e: Seq<(String, usize)>, m: Map<Seq<char>, nat>) -> bool {
    &&& forall|a: int| 0 <= a < e.len() ==> #[trigger] m.contains_key(e[a].0@) && m[e[a].0@]
        == e[a].1 as nat
    &&& forall|a: int, b: int| 0 <= a < b < e.len() ==> #[trigger] e[a].0@ != #[trigger] e[b].0@
}

/// Each key of `m` is listed in `e`.
pub open spec fn covers(e: Seq<(String, usize)>, m: Map<Seq<char>, nat>) -> bool {
    forall|t: Seq<char>| #[trigger]
        m.contains_key(t) ==> exists|a: int| 0 <= a < e.len() && e[a].0@ == t
}

/// `e` lists the map `m`: each of its keys once, with its count.
pub open spec fn lists(e: Seq<(String, usize)>, m: Map<Seq<char>, nat>) -> bool {
    entries_in(e, m) && covers(e, m)
}

/// Relies on `DashMap::iter`: every entry of the map is visited once, in an
/// order that the map does not fix.
#[verifier::external_body]
pub(crate) fn entries(m: &DashMap<String, usize>) -> (r: Vec<(String, usize)>)
    ensures
        lists(r@, counts_of(*m)),
{
    m.iter().map(|e| (e.key().clone(), *e.value())).collect()
}

/// Relies on `DashMap::get`: the count held under `key`, if there is one.
#[verifier::external_body]
pub(crate) fn count_of(m: &DashMap<String, usize>, key: &String) -> (r: Option<usize>)
    ensures
        r == (if counts_of(*m).contains_key(key@) {
            Some(counts_of(*m)[key@] as usize)
        } else {
            None
        }),
{
    m.get(key).map(|v| *v.value())
}

} // verus!
