//! The resolution path: the names being expanded, in the order they were
//! entered, held in a `LinkedHashSet` so that membership tests are cheap.

use linked_hash_set::LinkedHashSet;
use vstd::prelude::*;

use crate::string_set::char_seqs;

verus! {

#[verifier::external_type_specification]
#[verifier::external_body]
#[verifier::reject_recursive_types(T)]
#[verifier::reject_recursive_types(S)]
pub struct ExLinkedHashSet<T, S>(LinkedHashSet<T, S>);

/// The names held by a resolution path, in insertion order.
pub uninterp spec fn chain_of(p: LinkedHashSet<String>) -> Seq<Seq<char>>;

/// Relies on `LinkedHashSet::new`: the new set is empty.
#[verifier::external_body]
pub(crate) fn chain_new() -> (r: LinkedHashSet<String>)
    ensures
        chain_of(r) == Seq::<Seq<char>>::empty(),
{
    LinkedHashSet::new()
}

/// Relies on `LinkedHashSet::contains`: whether an equal string is held.
#[verifier::external_body]
pub(crate) fn chain_contains(p: &LinkedHashSet<String>, k: &String) -> (r: bool)
    ensures
        r == chain_of(*p).contains(k@),
{
    p.contains(k)
}

/// Relies on `LinkedHashSet::insert`: a value that is not held goes last.
#[verifier::external_body]
pub(crate) fn chain_push(p: &mut LinkedHashSet<String>, k: String)
    requires
        !chain_of(*old(p)).contains(k@),
    ensures
        chain_of(*final(p)) == chain_of(*old(p)).push(k@),
{
    p.insert(k);
}

/// Relies on `LinkedHashSet::pop_back`: removes and returns the last value.
#[verifier::external_body]
pub(crate) fn chain_pop(p: &mut LinkedHashSet<String>) -> (r: Option<String>)
    ensures
        chain_of(*old(p)).len() == 0 ==> r is None && chain_of(*final(p)) == chain_of(*old(p)),
        chain_of(*old(p)).len() > 0 ==> r is Some && r->0@ == chain_of(*old(p)).last()
            && chain_of(*final(p)) == chain_of(*old(p)).drop_last(),
{
    p.pop_back()
}

/// Relies on `LinkedHashSet::iter`: the values in insertion order.
#[verifier::external_body]
pub(crate) fn chain_to_vec(p: &LinkedHashSet<String>) -> (r: Vec<String>)
    ensures
        char_seqs(r@) == chain_of(*p),
{
    p.iter().cloned().collect()
}

} // verus!
