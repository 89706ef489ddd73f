//! The index from a canonical sequence of component types to the table of
//! the entities that have exactly those types.
use vstd::prelude::*;
use core::any::TypeId;
use fxhash::FxHashMap;
use crate::type_info::ranks;

verus! {

/// `fxhash::FxHasher`, the hasher of the index.
#[verifier::external_type_specification]
#[verifier::external_body]
pub struct ExFxHasher(fxhash::FxHasher);

/// `core::hash::BuildHasherDefault`, which makes the hashers of the index.
#[verifier::external_type_specification]
#[verifier::external_body]
#[verifier::reject_recursive_types(H)]
pub struct ExBuildHasherDefault<H>(core::hash::BuildHasherDefault<H>);

/// The index: a hash map of `fxhash` from a sequence of type identities to the
/// number of a table.
pub type ArchetypeIndex = FxHashMap<Vec<TypeId>, usize>;

/// What the index holds: for each sequence of type identities that is a key
/// of the map, given by the ranks of the identities, the number stored under
/// it.
pub uninterp spec fn index_entries(index: ArchetypeIndex) -> Map<Seq<int>, usize>;

/// Calls `FxHashMap::default()`. The new map holds nothing.
#[verifier::external_body]
pub(crate) fn index_new() -> (made: ArchetypeIndex)
    ensures
        forall|ids: Seq<int>| !index_entries(made).contains_key(ids),
{
    FxHashMap::default()
}

/// Calls `get` of the map. It returns the number stored under the key that
/// equals `ids`, identity by identity, where there is such a key.
#[verifier::external_body]
pub(crate) fn index_get(index: &ArchetypeIndex, ids: &Vec<TypeId>) -> (found: Option<usize>)
    ensures
        found == (if index_entries(*index).contains_key(ranks(ids@)) {
            Some(index_entries(*index)[ranks(ids@)])
        } else {
            None
        }),
{
    index.get(ids).copied()
}

/// Calls `insert` of the map. Afterwards `table` is stored under `ids`, and
/// the other keys hold what they held.
#[verifier::external_body]
pub(crate) fn index_insert(index: &mut ArchetypeIndex, ids: Vec<TypeId>, table: usize)
    ensures
        index_entries(*final(index)) == index_entries(*old(index)).insert(ranks(ids@), table),
{
    index.insert(ids, table);
}

} // verus!
