//! The subscription index: a multimap from event identifiers to trigger indices, kept in the
//! `btreemultimap_value_ord` crate's `BTreeMultiMap`, which counts repeated pairs.
use btreemultimap_value_ord::BTreeMultiMap;
use vstd::multiset::Multiset;
use vstd::prelude::*;

verus! {

#[verifier::external_type_specification]
#[verifier::external_body]
#[verifier::reject_recursive_types(Key)]
#[verifier::reject_recursive_types(Value)]
pub struct ExBTreeMultiMap<Key: Ord, Value: Ord>(BTreeMultiMap<Key, Value>);

/// The (identifier, trigger index) pairs held by a subscription index, with multiplicity.
pub uninterp spec fn index_contents(m: BTreeMultiMap<u64, usize>) -> Multiset<(u64, usize)>;

/// Relies on `BTreeMultiMap::new`: a new multimap holds no pairs.
#[verifier::external_body]
pub(crate) fn index_new() -> (r: BTreeMultiMap<u64, usize>)
    ensures
        index_contents(r) =~= Multiset::empty(),
{
    BTreeMultiMap::new()
}

/// Relies on `BTreeMultiMap::insert`: it adds one occurrence of the pair, counting occurrences
/// in a `usize` that it increments.
#[verifier::external_body]
pub(crate) fn index_insert(m: &mut BTreeMultiMap<u64, usize>, key: u64, value: usize)
    requires
        index_contents(*old(m)).count((key, value)) < usize::MAX,
    ensures
        index_contents(*final(m)) =~= index_contents(*old(m)).insert((key, value)),
{
    m.insert(key, value)
}

/// Relies on `BTreeMultiMap::remove_key_value`: it removes one occurrence of the pair if there
/// is one, and reports whether there was.
#[verifier::external_body]
pub(crate) fn index_remove(m: &mut BTreeMultiMap<u64, usize>, key: u64, value: usize) -> (r: bool)
    ensures
        index_contents(*final(m)) =~= index_contents(*old(m)).remove((key, value)),
        r == (index_contents(*old(m)).count((key, value)) > 0),
{
    m.remove_key_value(&key, &value)
}

/// Relies on `BTreeMultiMap::get`: the values stored under a key are the keys of an ordered
/// map that holds exactly the values with at least one occurrence, which `keys` visits in
/// ascending order.
#[verifier::external_body]
pub(crate) fn index_values(m: &BTreeMultiMap<u64, usize>, key: u64) -> (r: Vec<usize>)
    ensures
        forall|v: usize| r@.contains(v) <==> index_contents(*m).count((key, v)) > 0,
        forall|i: int, j: int| 0 <= i < j < r.len() ==> r@[i] < r@[j],
{
    m.get(&key).map_or(Vec::new(), |values| values.keys().copied().collect())
}

} // verus!
