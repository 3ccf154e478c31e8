//! Sets of person names (authors, narrators), held in `im::OrdSet`.

use im::OrdSet;
use vstd::prelude::*;

verus! {

#[verifier::external_type_specification]
#[verifier::external_body]
#[verifier::reject_recursive_types(A)]
pub struct ExOrdSet<A>(OrdSet<A>);

/// The names that a set holds.
pub uninterp spec fn names_of(s: OrdSet<String>) -> Set<Seq<char>>;

/// Relies on `im::OrdSet::new`: a set with no elements.
#[verifier::external_body]
pub(crate) fn empty_names() -> (r: OrdSet<String>)
    ensures
        names_of(r) == Set::<Seq<char>>::empty(),
{
    OrdSet::new()
}

/// Relies on `im::OrdSet::insert`: afterwards the set holds the old elements and the new one
/// (a value equal to an element already present replaces it, which leaves the set of names as it was).
#[verifier::external_body]
pub(crate) fn insert_name(s: &mut OrdSet<String>, name: String)
    ensures
        names_of(*final(s)) == names_of(*old(s)).insert(name@),
{
    s.insert(name);
}

/// Relies on `im::OrdSet::union`: the elements of both sets.
#[verifier::external_body]
pub(crate) fn union_names(a: OrdSet<String>, b: OrdSet<String>) -> (r: OrdSet<String>)
    ensures
        names_of(r) == names_of(a).union(names_of(b)),
{
    a.union(b)
}

/// Relies on `Clone for im::OrdSet`: the copy shares the tree and so holds the same elements.
#[verifier::external_body]
pub(crate) fn clone_names(s: &OrdSet<String>) -> (r: OrdSet<String>)
    ensures
        names_of(r) == names_of(*s),
{
    s.clone()
}

} // verus!
