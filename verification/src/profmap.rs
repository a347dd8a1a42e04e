//! The declared-profile table: profile names in declaration order, each
//! with its doc-override lines, deduplicated by name. Held in an
//! `indexmap::IndexMap` so that iteration follows insertion order.
use vstd::prelude::*;

verus! {

#[verifier::external_type_specification]
#[verifier::external_body]
#[verifier::reject_recursive_types(K)]
#[verifier::reject_recursive_types(V)]
#[verifier::reject_recursive_types(S)]
pub struct ExIndexMap<K, V, S>(indexmap::IndexMap<K, V, S>);

/// What the profile table holds: its entries in order, each a profile
/// name with its doc-override payload handles.
pub uninterp spec fn profile_entries(m: indexmap::IndexMap<String, Vec<u32>>) -> Seq<
    (Seq<char>, Seq<u32>),
>;

/// Whether a key occurs among the entries.
pub open spec fn entries_have_key(es: Seq<(Seq<char>, Seq<u32>)>, k: Seq<char>) -> bool {
    exists|i: int| 0 <= i < es.len() && (#[trigger] es[i]).0 == k
}

/// Whether all entry keys are distinct, as they are in any real map.
pub open spec fn distinct_keys(es: Seq<(Seq<char>, Seq<u32>)>) -> bool {
    forall|i: int, j: int| 0 <= i < j < es.len() ==> (#[trigger] es[i]).0 != (#[trigger] es[j]).0
}

/// Relies on `IndexMap::new`: creates an empty map.
#[verifier::external_body]
pub fn pm_new() -> (r: indexmap::IndexMap<String, Vec<u32>>)
    ensures
        profile_entries(r) == Seq::<(Seq<char>, Seq<u32>)>::empty(),
{
    indexmap::IndexMap::new()
}

/// Relies on `IndexMap::insert`: an equivalent key keeps its place in the
/// order and only its value is updated, the older value coming back in
/// `Some`; a new key is appended last in order, and `None` comes back.
#[verifier::external_body]
pub fn pm_insert(m: &mut indexmap::IndexMap<String, Vec<u32>>, k: String, v: Vec<u32>) -> (r: Option<
    Vec<u32>,
>)
    ensures
        ({
            let old_es = profile_entries(*old(m));
            let new_es = profile_entries(*final(m));
            if entries_have_key(old_es, k@) {
                exists|i: int|
                    {
                        &&& 0 <= i < old_es.len()
                        &&& (#[trigger] old_es[i]).0 == k@
                        &&& new_es == old_es.update(i, (k@, v@))
                        &&& r matches Some(p) && p@ == old_es[i].1
                    }
            } else {
                new_es == old_es.push((k@, v@)) && r is None
            }
        }),
{
    m.insert(k, v)
}

/// Relies on `IndexMap::contains_key`: whether an equivalent key exists.
#[verifier::external_body]
pub fn pm_contains(m: &indexmap::IndexMap<String, Vec<u32>>, k: &String) -> (r: bool)
    ensures
        r == entries_have_key(profile_entries(*m), k@),
{
    m.contains_key(k)
}

/// Relies on `IndexMap::len`: the number of entries.
#[verifier::external_body]
pub fn pm_len(m: &indexmap::IndexMap<String, Vec<u32>>) -> (r: usize)
    ensures
        r == profile_entries(*m).len(),
{
    m.len()
}

/// Relies on `IndexMap::get_index`: the pair at one position in order.
#[verifier::external_body]
pub fn pm_get_index<'a>(m: &'a indexmap::IndexMap<String, Vec<u32>>, i: usize) -> (r: Option<
    (&'a String, &'a Vec<u32>),
>)
    ensures
        match r {
            Some(p) => {
                &&& i < profile_entries(*m).len()
                &&& p.0@ == profile_entries(*m)[i as int].0
                &&& p.1@ == profile_entries(*m)[i as int].1
            },
            None => i >= profile_entries(*m).len(),
        },
{
    m.get_index(i)
}

} // verus!
