//! The recency-ordered map of hashlink, seen through its entries from the
//! least recently to the most recently inserted.

use hashlink::{DefaultHashBuilder, LinkedHashMap};
use vstd::prelude::*;

verus! {

#[verifier::external_type_specification]
#[verifier::external_body]
#[verifier::reject_recursive_types(K)]
#[verifier::reject_recursive_types(V)]
#[verifier::reject_recursive_types(S)]
pub struct ExLinkedHashMap<K, V, S>(LinkedHashMap<K, V, S>);

#[verifier::external_type_specification]
#[verifier::external_body]
pub struct ExDefaultHashBuilder(DefaultHashBuilder);

/// The entries of a map, front (least recently inserted) first.
pub uninterp spec fn recency_entries(m: LinkedHashMap<u32, usize>) -> Seq<(u32, usize)>;

/// Relies on `LinkedHashMap::new`: a new map has no entries.
#[verifier::external_body]
pub(crate) fn new_map() -> (m: LinkedHashMap<u32, usize>)
    ensures
        recency_entries(m) == Seq::<(u32, usize)>::empty(),
{
    LinkedHashMap::new()
}

/// Relies on `LinkedHashMap::insert`: the pair goes to the back; a key that was
/// already present leaves its former place.
#[verifier::external_body]
pub(crate) fn insert_back(m: &mut LinkedHashMap<u32, usize>, k: u32, v: usize)
    ensures
        (forall|j: int|
            0 <= j < recency_entries(*old(m)).len() ==> #[trigger] recency_entries(*old(m))[j].0
                != k) ==> recency_entries(*final(m)) == recency_entries(*old(m)).push((k, v)),
        forall|j: int|
            0 <= j < recency_entries(*old(m)).len() && #[trigger] recency_entries(*old(m))[j].0
                == k ==> recency_entries(*final(m)) == recency_entries(*old(m)).remove(j).push(
                (k, v),
            ),
{
    m.insert(k, v);
}

/// Relies on `LinkedHashMap::front`: the least recently inserted entry, if any.
#[verifier::external_body]
pub(crate) fn front_entry(m: &LinkedHashMap<u32, usize>) -> (r: Option<(u32, usize)>)
    ensures
        recency_entries(*m).len() == 0 ==> r is None,
        recency_entries(*m).len() > 0 ==> r == Some(recency_entries(*m)[0]),
{
    m.front().map(|(k, v)| (*k, *v))
}

/// Relies on `LinkedHashMap::back`: the most recently inserted entry, if any.
#[verifier::external_body]
pub(crate) fn back_entry(m: &LinkedHashMap<u32, usize>) -> (r: Option<(u32, usize)>)
    ensures
        recency_entries(*m).len() == 0 ==> r is None,
        recency_entries(*m).len() > 0 ==> r == Some(recency_entries(*m).last()),
{
    m.back().map(|(k, v)| (*k, *v))
}

/// Relies on `LinkedHashMap::len`: the number of entries.
#[verifier::external_body]
pub(crate) fn entry_count(m: &LinkedHashMap<u32, usize>) -> (r: usize)
    ensures
        r == recency_entries(*m).len(),
{
    m.len()
}

} // verus!
