use vstd::prelude::*;

use core::cmp::Ordering;
use indexmap::IndexMap;

use crate::ranking::sort_desc;

verus! {

#[verifier::external_type_specification]
#[verifier::external_body]
#[verifier::reject_recursive_types(K)]
#[verifier::reject_recursive_types(V)]
#[verifier::reject_recursive_types(S)]
pub struct ExIndexMap<K, V, S>(IndexMap<K, V, S>);

/// The key-value pairs of a map from entry index to size, in the map's order.
pub uninterp spec fn size_entries(m: IndexMap<usize, u64>) -> Seq<(usize, u64)>;

/// Orders a larger size before a smaller one.
pub(crate) fn larger_first(a: &u64, b: &u64) -> (r: Ordering)
    ensures
        (r == Ordering::Less) == (*a > *b),
        (r == Ordering::Greater) == (*a < *b),
        (r == Ordering::Equal) == (*a == *b),
{
    if *a > *b {
        Ordering::Less
    } else if *a < *b {
        Ordering::Greater
    } else {
        Ordering::Equal
    }
}

/// Relies on `IndexMap::new`: the new map is empty.
#[verifier::external_body]
pub(crate) fn empty_size_map() -> (m: IndexMap<usize, u64>)
    ensures
        size_entries(m) == Seq::<(usize, u64)>::empty(),
{
    IndexMap::new()
}

/// Relies on `IndexMap::insert`: a key that is not yet in the map is added
/// last in order.
#[verifier::external_body]
pub(crate) fn insert_size(m: &mut IndexMap<usize, u64>, key: usize, size: u64)
    ensures
        (forall|j: int| 0 <= j < size_entries(*old(m)).len() ==> size_entries(*old(m))[j].0 != key)
            ==> size_entries(*final(m)) == size_entries(*old(m)).push((key, size)),
{
    m.insert(key, size);
}

/// Relies on `IndexMap::sort_by`, a stable sort, here ordering larger sizes first.
#[verifier::external_body]
pub(crate) fn sort_larger_first(m: &mut IndexMap<usize, u64>)
    ensures
        size_entries(*final(m)) == sort_desc(size_entries(*old(m))),
{
    m.sort_by(|_ka, a, _kb, b| larger_first(a, b));
}

/// Relies on `IndexMap::truncate`: keeps the first `len` pairs; no effect
/// when the map is not longer than that.
#[verifier::external_body]
pub(crate) fn truncate_sizes(m: &mut IndexMap<usize, u64>, len: usize)
    ensures
        size_entries(*final(m)) == if len < size_entries(*old(m)).len() {
            size_entries(*old(m)).take(len as int)
        } else {
            size_entries(*old(m))
        },
{
    m.truncate(len);
}

/// Relies on the by-value iterator of `IndexMap`: it yields the pairs in order.
#[verifier::external_body]
pub(crate) fn size_pairs(m: IndexMap<usize, u64>) -> (r: Vec<(usize, u64)>)
    ensures
        r@ == size_entries(m),
{
    m.into_iter().collect()
}

} // verus!
