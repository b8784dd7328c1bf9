//! The duplicate-token map: a canonical token id mapped to the other ids
//! whose byte content is the same.
//!
//! The map is a hash map keyed with the fast Fx hasher. Verus has no model
//! of that hasher, so the handful of operations the trie needs go through
//! trusted wrappers whose contracts state what the standard hash map does.

use vstd::prelude::*;
use rustc_hash::FxBuildHasher;
use rustc_hash::FxHashMap;

verus! {

#[verifier::external_type_specification]
#[verifier::external_body]
pub struct ExFxBuildHasher(FxBuildHasher);

/// An empty duplicate map.
///
/// Relies on `HashMap::default`, which vstd specifies directly.
pub fn dup_new() -> (r: FxHashMap<u32, Vec<u32>>)
    ensures
        r@ == Map::<u32, Vec<u32>>::empty(),
{
    FxHashMap::default()
}

/// Append `v` to the vector stored at `k`, creating an empty vector there
/// first when the key is absent.
///
/// Relies on `HashMap::entry`, `Entry::or_insert_with` and `Vec::push`: the
/// entry api returns the vector stored at `k` (inserting the supplied empty
/// vector when `k` is absent) and the push appends one element to it.
#[verifier::external_body]
pub fn dup_push(m: &mut FxHashMap<u32, Vec<u32>>, k: u32, v: u32)
    ensures
        final(m)@.dom() == old(m)@.dom().insert(k),
        final(m)@.contains_key(k),
        final(m)@[k]@ == (if old(m)@.contains_key(k) {
            old(m)@[k]@
        } else {
            Seq::<u32>::empty()
        }).push(v),
        forall|k2: u32|
            #![trigger final(m)@[k2]]
            k2 != k && old(m)@.contains_key(k2) ==> final(m)@.contains_key(k2) && final(m)@[k2]@
                == old(m)@[k2]@,
{
    m.entry(k).or_insert_with(Vec::new).push(v);
}

/// The vector stored at `k`, if any.
///
/// Relies on `HashMap::get`: it returns the value stored at the key, and
/// `None` exactly when the key is absent.
#[verifier::external_body]
pub fn dup_get<'a>(m: &'a FxHashMap<u32, Vec<u32>>, k: u32) -> (r: Option<&'a Vec<u32>>)
    ensures
        match r {
            Some(v) => m@.contains_key(k) && v@ == m@[k]@,
            None => !m@.contains_key(k),
        },
{
    m.get(&k)
}

/// Every key-value pair of the map, each key exactly once, in no promised
/// order.
///
/// Relies on `HashMap::iter`: it yields each stored pair exactly once, and
/// on `Vec::clone` for the copied values.
#[verifier::external_body]
pub fn dup_entries(m: &FxHashMap<u32, Vec<u32>>) -> (r: Vec<(u32, Vec<u32>)>)
    ensures
        forall|i: int|
            0 <= i < r@.len() ==> m@.contains_key(#[trigger] r@[i].0) && r@[i].1@ == m@[r@[i].0]@,
        forall|i: int, j: int| 0 <= i < j < r@.len() ==> r@[i].0 != r@[j].0,
        forall|k: u32|
            #[trigger] m@.contains_key(k) ==> exists|i: int| 0 <= i < r@.len() && r@[i].0 == k,
{
    m.iter().map(|(k, v)| (*k, v.clone())).collect()
}

/// An equal duplicate map.
///
/// Relies on `HashMap::clone`: the copy holds the same keys, each mapped to
/// a clone of its vector.
#[verifier::external_body]
pub fn dup_clone(m: &FxHashMap<u32, Vec<u32>>) -> (r: FxHashMap<u32, Vec<u32>>)
    ensures
        r@.dom() == m@.dom(),
        forall|k: u32| m@.contains_key(k) ==> (#[trigger] r@[k])@ == m@[k]@,
{
    m.clone()
}

} // verus!
