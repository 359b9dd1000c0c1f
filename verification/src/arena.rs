//! The store of bins behind stable identifiers, kept in an `id_vec::IdVec`.

use crate::bin::Bin;
use id_vec::Id;
use id_vec::IdVec;
use vstd::prelude::*;

verus! {

/// `id_vec::IdVec`, a store that hands out an identifier for each element put
/// into it. The verifier does not look inside: what an arena of bins holds is
/// spoken of through `arena_bins`.
#[verifier::external_type_specification]
#[verifier::external_body]
#[verifier::reject_recursive_types(T)]
pub struct ExIdVec<T>(IdVec<T>);

/// The bins that an arena holds, each under the index value of its identifier.
pub uninterp spec fn arena_bins(arena: IdVec<Bin>) -> Map<int, Bin>;

/// Makes an empty arena with `IdVec::new`.
///
/// Trusted: the new arena holds nothing.
#[verifier::external_body]
pub(crate) fn arena_new() -> (fresh: IdVec<Bin>)
    ensures
        arena_bins(fresh) == (Map::<int, Bin>::empty()),
{
    IdVec::new()
}

/// Copies an arena with the `Clone` impl of `IdVec`.
///
/// Trusted: the copy holds the same bins under the same identifiers.
#[verifier::external_body]
pub(crate) fn arena_clone(arena: &IdVec<Bin>) -> (copy: IdVec<Bin>)
    ensures
        arena_bins(copy) == arena_bins(*arena),
{
    arena.clone()
}

/// Stores a bin with `IdVec::insert` and returns the index value of the
/// identifier it was given.
///
/// Trusted: the identifier was not in use before; afterwards it stands for the
/// new bin, and every other identifier stands for what it stood for before.
/// Which unused identifier is handed out is left open.
#[verifier::external_body]
pub(crate) fn arena_insert(arena: &mut IdVec<Bin>, bin: Bin) -> (id: usize)
    ensures
        !arena_bins(*old(arena)).contains_key(id as int),
        arena_bins(*final(arena)) == arena_bins(*old(arena)).insert(id as int, bin),
{
    arena.insert(bin).index_value()
}

/// Reads the bin behind an identifier by indexing the `IdVec`.
///
/// Trusted: for an identifier in use, the result is the bin it stands for.
#[verifier::external_body]
pub(crate) fn arena_get(arena: &IdVec<Bin>, id: usize) -> (bin: &Bin)
    requires
        arena_bins(*arena).contains_key(id as int),
    ensures
        *bin == arena_bins(*arena)[id as int],
{
    &arena[Id::from_index(id)]
}

/// Replaces the bin behind an identifier by assigning through the `IdVec`'s
/// mutable index.
///
/// Trusted: for an identifier in use, afterwards it stands for the new bin,
/// and every other identifier stands for what it stood for before.
#[verifier::external_body]
pub(crate) fn arena_set(arena: &mut IdVec<Bin>, id: usize, bin: Bin)
    requires
        arena_bins(*old(arena)).contains_key(id as int),
    ensures
        arena_bins(*final(arena)) == arena_bins(*old(arena)).insert(id as int, bin),
{
    arena[Id::from_index(id)] = bin;
}

/// Frees an identifier with `IdVec::remove`.
///
/// Trusted: afterwards the identifier is not in use, and every other
/// identifier stands for what it stood for before.
#[verifier::external_body]
pub(crate) fn arena_remove(arena: &mut IdVec<Bin>, id: usize)
    ensures
        arena_bins(*final(arena)) == arena_bins(*old(arena)).remove(id as int),
{
    arena.remove(Id::from_index(id));
}

} // verus!
