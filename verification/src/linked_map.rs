use vstd::prelude::*;

use crate::literal_value::LiteralValue;
use crate::term_model::{has_key, idx_of, lookup, Entries};

verus! {

/// An insertion-ordered map from the `linked_hash_map` crate backs every
/// product term. Verus sees the type as opaque; the functions below are
/// the only places where its behaviour is taken on trust, each against
/// the crate's own source.
#[verifier::external_type_specification]
#[verifier::external_body]
#[verifier::reject_recursive_types(K)]
#[verifier::reject_recursive_types(V)]
#[verifier::reject_recursive_types(S)]
pub struct ExLinkedHashMap<K, V, S>(linked_hash_map::LinkedHashMap<K, V, S>);

/// What a map holds: its (key, value) pairs in insertion order, keys
/// taken as character sequences. Named here, given meaning only through
/// the contracts of the trusted functions below.
pub uninterp spec fn map_entries(m: linked_hash_map::LinkedHashMap<String, LiteralValue>) -> Entries;

/// Relies on `LinkedHashMap::new`: the fresh map holds no entries.
#[verifier::external_body]
pub(crate) fn lhm_new() -> (r: linked_hash_map::LinkedHashMap<String, LiteralValue>)
    ensures
        map_entries(r) == Seq::<(Seq<char>, LiteralValue)>::empty(),
{
    linked_hash_map::LinkedHashMap::new()
}

/// Relies on `LinkedHashMap::len`: the number of entries.
#[verifier::external_body]
pub(crate) fn lhm_len(m: &linked_hash_map::LinkedHashMap<String, LiteralValue>) -> (r: usize)
    ensures
        r == map_entries(*m).len(),
{
    m.len()
}

/// Relies on `LinkedHashMap::get`: the value stored for the key, if any.
#[verifier::external_body]
pub(crate) fn lhm_get(
    m: &linked_hash_map::LinkedHashMap<String, LiteralValue>,
    k: &String,
) -> (r: Option<LiteralValue>)
    ensures
        r == lookup(map_entries(*m), k@),
{
    m.get(k).copied()
}

/// Relies on `LinkedHashMap::contains_key`.
#[verifier::external_body]
pub(crate) fn lhm_contains(
    m: &linked_hash_map::LinkedHashMap<String, LiteralValue>,
    k: &String,
) -> (r: bool)
    ensures
        r == has_key(map_entries(*m), k@),
{
    m.contains_key(k)
}

/// Relies on `LinkedHashMap::insert` for a key that is not yet present:
/// the new entry is appended after all existing ones.
#[verifier::external_body]
pub(crate) fn lhm_append(
    m: &mut linked_hash_map::LinkedHashMap<String, LiteralValue>,
    k: String,
    v: LiteralValue,
)
    requires
        !has_key(map_entries(*old(m)), k@),
    ensures
        map_entries(*final(m)) == map_entries(*old(m)).push((k@, v)),
{
    m.insert(k, v);
}

/// Relies on `LinkedHashMap::get_mut`: writing through the returned
/// reference replaces the stored value in place, without touching the
/// entry's position; an absent key leaves the map unchanged.
#[verifier::external_body]
pub(crate) fn lhm_set_existing(
    m: &mut linked_hash_map::LinkedHashMap<String, LiteralValue>,
    k: &String,
    v: LiteralValue,
)
    ensures
        has_key(map_entries(*old(m)), k@) ==> map_entries(*final(m)) == map_entries(
            *old(m),
        ).update(idx_of(map_entries(*old(m)), k@), (k@, v)),
        !has_key(map_entries(*old(m)), k@) ==> map_entries(*final(m)) == map_entries(*old(m)),
{
    if let Some(slot) = m.get_mut(k) {
        *slot = v;
    }
}

/// Relies on `LinkedHashMap::pop_back`: removes and returns the most
/// recently inserted entry, or `None` from an empty map.
#[verifier::external_body]
pub(crate) fn lhm_pop_back(
    m: &mut linked_hash_map::LinkedHashMap<String, LiteralValue>,
) -> (r: Option<(String, LiteralValue)>)
    ensures
        map_entries(*old(m)).len() == 0 ==> r is None && map_entries(*final(m)) == map_entries(
            *old(m),
        ),
        map_entries(*old(m)).len() > 0 ==> {
            &&& r is Some
            &&& (r->Some_0).0@ == map_entries(*old(m)).last().0
            &&& (r->Some_0).1 == map_entries(*old(m)).last().1
            &&& map_entries(*final(m)) == map_entries(*old(m)).drop_last()
        },
{
    m.pop_back()
}

/// Relies on `LinkedHashMap::iter`: entries visited in insertion order.
#[verifier::external_body]
pub(crate) fn lhm_pairs(
    m: &linked_hash_map::LinkedHashMap<String, LiteralValue>,
) -> (r: Vec<(String, LiteralValue)>)
    ensures
        r@.len() == map_entries(*m).len(),
        forall|i: int|
            0 <= i < r@.len() ==> (#[trigger] r@[i]).0@ == map_entries(*m)[i].0 && r@[i].1
                == map_entries(*m)[i].1,
{
    m.iter().map(|(k, v)| (k.clone(), *v)).collect()
}

/// Relies on `LinkedHashMap::clone`, which rebuilds the map by inserting
/// the entries in iteration order: the entry sequence is preserved.
#[verifier::external_body]
pub(crate) fn lhm_clone(
    m: &linked_hash_map::LinkedHashMap<String, LiteralValue>,
) -> (r: linked_hash_map::LinkedHashMap<String, LiteralValue>)
    ensures
        map_entries(r) == map_entries(*m),
{
    m.clone()
}

} // verus!
