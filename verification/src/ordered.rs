//! The insertion-ordered map in which a report is put together.

use crate::value::Value;
use crate::value::ValueView;
use crate::value::members_view;
use indexmap::IndexMap;
use vstd::prelude::*;

verus! {

/// `indexmap::IndexMap`, a map that keeps its entries in the order in which
/// their keys were first put in. Nothing of its inside is known here.
#[verifier::external_type_specification]
#[verifier::external_body]
#[verifier::reject_recursive_types(K)]
#[verifier::reject_recursive_types(V)]
#[verifier::reject_recursive_types(S)]
pub struct ExIndexMap<K, V, S>(indexmap::IndexMap<K, V, S>);

/// The entries of an insertion-ordered map, in their order.
pub uninterp spec fn entries_of(map: IndexMap<String, Value>) -> Seq<(Seq<char>, ValueView)>;

/// True when some entry has the key `key`.
pub open spec fn has_key(entries: Seq<(Seq<char>, ValueView)>, key: Seq<char>) -> bool {
    exists|i: int| 0 <= i < entries.len() && (#[trigger] entries[i]).0 == key
}

/// `IndexMap::new` makes a map without entries.
#[verifier::external_body]
pub(crate) fn new_map() -> (map: IndexMap<String, Value>)
    ensures
        entries_of(map) == Seq::<(Seq<char>, ValueView)>::empty(),
{
    IndexMap::new()
}

/// `IndexMap::insert` puts a pair with a new key last in order and returns
/// `None`; for a key that the map holds it leaves the key in its place, puts
/// the value in place of the old one and returns the old one.
#[verifier::external_body]
pub(crate) fn map_insert(map: &mut IndexMap<String, Value>, key: String, value: Value) -> (r:
    Option<Value>)
    ensures
        !has_key(entries_of(*old(map)), key@) ==> r is None && entries_of(*final(map))
            == entries_of(*old(map)).push((key@, value@)),
        forall|i: int|
            0 <= i < entries_of(*old(map)).len() && (#[trigger] entries_of(*old(map))[i]).0 == key@
                ==> (r is Some && r->0@ == entries_of(*old(map))[i].1 && entries_of(*final(map))
                == entries_of(*old(map)).update(i, (key@, value@))),
{
    map.insert(key, value)
}

/// `IndexMap::into_iter` hands out the entries in their order.
#[verifier::external_body]
pub(crate) fn map_into_members(map: IndexMap<String, Value>) -> (r: Vec<(String, Value)>)
    ensures
        members_view(r@) == entries_of(map),
{
    map.into_iter().collect()
}

} // verus!
