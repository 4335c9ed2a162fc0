//! An insertion-ordered set of 32-byte hashes, kept in an `indexmap::IndexSet`.

use indexmap::IndexSet;
use vstd::prelude::*;

verus! {

/// Makes `indexmap::IndexSet` known as a type whose inside is not looked into.
#[verifier::external_type_specification]
#[verifier::external_body]
#[verifier::reject_recursive_types(T)]
#[verifier::reject_recursive_types(S)]
pub struct ExIndexSet<T, S>(IndexSet<T, S>);

/// The items of a set, in the order in which they were inserted.
pub uninterp spec fn set_items(set: IndexSet<[u8; 32]>) -> Seq<Seq<u8>>;

/// Calls `IndexSet::with_capacity`. Trusted: the new set is empty.
#[verifier::external_body]
pub(crate) fn with_capacity(n: usize) -> (r: IndexSet<[u8; 32]>)
    ensures
        set_items(r) == Seq::<Seq<u8>>::empty(),
{
    IndexSet::with_capacity(n)
}

/// Calls `IndexSet::insert`. Trusted: an item that the set already holds is
/// refused with `false` and leaves the set as it was; a new item goes behind
/// the others and gives `true`.
#[verifier::external_body]
pub(crate) fn insert(set: &mut IndexSet<[u8; 32]>, value: [u8; 32]) -> (r: bool)
    ensures
        r == !set_items(*old(set)).contains(value@),
        set_items(*final(set)) == if r {
            set_items(*old(set)).push(value@)
        } else {
            set_items(*old(set))
        },
{
    set.insert(value)
}

/// Calls `IndexSet::contains`. Trusted: it tells whether the set holds an
/// item with these bytes.
#[verifier::external_body]
pub(crate) fn contains(set: &IndexSet<[u8; 32]>, value: &[u8; 32]) -> (r: bool)
    ensures
        r == set_items(*set).contains(value@),
{
    set.contains(value)
}

/// Calls `IndexSet::len`. Trusted: it gives the number of items.
#[verifier::external_body]
pub(crate) fn len(set: &IndexSet<[u8; 32]>) -> (r: usize)
    ensures
        r == set_items(*set).len(),
{
    set.len()
}

/// Calls `IndexSet::get_index`. Trusted: below the length it gives the item
/// at that place in insertion order, and nothing from the length on.
#[verifier::external_body]
pub(crate) fn get_index(set: &IndexSet<[u8; 32]>, index: usize) -> (r: Option<&[u8; 32]>)
    ensures
        match r {
            Some(item) => index < set_items(*set).len() && item@ == set_items(*set)[index as int],
            None => index >= set_items(*set).len(),
        },
{
    set.get_index(index)
}

} // verus!
