use vstd::prelude::*;

use crate::order::Order;

verus! {

#[verifier::external_type_specification]
#[verifier::external_body]
#[verifier::reject_recursive_types(K)]
#[verifier::reject_recursive_types(V)]
#[verifier::reject_recursive_types(S)]
pub struct ExIndexMap<K, V, S>(indexmap::IndexMap<K, V, S>);

/// The order index: orders by the value of their id.
pub type OrderMap = indexmap::IndexMap<u64, Order>;

/// The orders an index holds, by id.
pub uninterp spec fn index_contents(m: OrderMap) -> Map<u64, Order>;

/// Relies on `IndexMap::with_capacity`: a new map holds nothing.
#[verifier::external_body]
pub(crate) fn index_with_capacity(n: usize) -> (r: OrderMap)
    ensures
        index_contents(r).dom() == Set::<u64>::empty(),
{
    indexmap::IndexMap::with_capacity(n)
}

/// Relies on `IndexMap::get`: the value stored for the key, if there is one.
#[verifier::external_body]
pub(crate) fn index_get(m: &OrderMap, id: u64) -> (r: Option<&Order>)
    ensures
        match r {
            Some(o) => index_contents(*m).contains_key(id) && *o == index_contents(*m)[id],
            None => !index_contents(*m).contains_key(id),
        },
{
    m.get(&id)
}

/// Relies on `IndexMap::insert`: the key maps to the new value, the old one comes back,
/// and every other key keeps its value.
#[verifier::external_body]
pub(crate) fn index_insert(m: &mut OrderMap, id: u64, o: Order) -> (r: Option<Order>)
    ensures
        index_contents(*final(m)) == index_contents(*old(m)).insert(id, o),
        r == (if index_contents(*old(m)).contains_key(id) {
            Some(index_contents(*old(m))[id])
        } else {
            None
        }),
{
    m.insert(id, o)
}

/// Relies on `IndexMap::swap_remove`: the key and its value leave the map, the value comes
/// back, and every other key keeps its value.
#[verifier::external_body]
pub(crate) fn index_remove(m: &mut OrderMap, id: u64) -> (r: Option<Order>)
    ensures
        index_contents(*final(m)) == index_contents(*old(m)).remove(id),
        r == (if index_contents(*old(m)).contains_key(id) {
            Some(index_contents(*old(m))[id])
        } else {
            None
        }),
{
    m.swap_remove(&id)
}

} // verus!
