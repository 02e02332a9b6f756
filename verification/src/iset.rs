//! Insertion-ordered sets of type names. The set type comes from the
//! indexmap crate; everything this library states about such a set is
//! pinned to `iset_elems`, the sequence of its elements in insertion
//! order.

use vstd::prelude::*;

verus! {

#[verifier::external_type_specification]
#[verifier::external_body]
#[verifier::reject_recursive_types(T)]
#[verifier::reject_recursive_types(S)]
pub struct ExIndexSet<T, S>(indexmap::IndexSet<T, S>);

/// The elements of an insertion-ordered name set, in order.
pub uninterp spec fn iset_elems(s: indexmap::IndexSet<String>) -> Seq<Seq<char>>;

/// Relies on indexmap::IndexSet::new: creates an empty set.
#[verifier::external_body]
pub(crate) fn iset_new() -> (r: indexmap::IndexSet<String>)
    ensures
        iset_elems(r) == Seq::<Seq<char>>::empty(),
{
    indexmap::IndexSet::new()
}

/// Relies on indexmap::IndexSet::insert: appends an element that is not
/// yet present at the end; leaves the set unchanged when an equivalent
/// element is already present; returns whether it was newly inserted.
#[verifier::external_body]
pub(crate) fn iset_insert(s: &mut indexmap::IndexSet<String>, v: String) -> (r: bool)
    ensures
        r == !iset_elems(*old(s)).contains(v@),
        iset_elems(*final(s)) == if iset_elems(*old(s)).contains(v@) {
            iset_elems(*old(s))
        } else {
            iset_elems(*old(s)).push(v@)
        },
{
    s.insert(v)
}

/// Relies on indexmap::IndexSet::contains: whether an equivalent
/// element is in the set.
#[verifier::external_body]
pub(crate) fn iset_contains(s: &indexmap::IndexSet<String>, v: &str) -> (r: bool)
    ensures
        r == iset_elems(*s).contains(v@),
{
    s.contains(v)
}

/// Relies on indexmap::IndexSet::len: the number of elements.
#[verifier::external_body]
pub(crate) fn iset_len(s: &indexmap::IndexSet<String>) -> (r: usize)
    ensures
        r == iset_elems(*s).len(),
{
    s.len()
}

/// Relies on indexmap::IndexSet::get_index: the element at a position
/// of the insertion order, if the position is in range.
#[verifier::external_body]
pub(crate) fn iset_get_index<'a>(s: &'a indexmap::IndexSet<String>, i: usize) -> (r: Option<&'a String>)
    ensures
        match r {
            Some(v) => i < iset_elems(*s).len() && v@ == iset_elems(*s)[i as int],
            None => i >= iset_elems(*s).len(),
        },
{
    s.get_index(i)
}

} // verus!
