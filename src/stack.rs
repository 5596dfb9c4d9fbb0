//! The scanner's offset stack: a fixed-capacity `arrayvec::ArrayVec`.

use arrayvec::ArrayVec;
use vstd::prelude::*;

verus! {

/// Longest chain the scanner builds.
pub const MAX_DEPTH: usize = 32;

#[verifier::external_type_specification]
#[verifier::external_body]
#[verifier::reject_recursive_types(T)]
pub struct ExArrayVec<T, const CAP: usize>(ArrayVec<T, CAP>);

/// The links held by a stack, oldest first: the key that was matched and the
/// offset pushed for it.
pub uninterp spec fn links_of(s: ArrayVec<(u64, i64), 32>) -> Seq<(u64, i64)>;

/// Relies on ArrayVec::new: an empty vector.
#[verifier::external_body]
pub(crate) fn stack_new() -> (r: ArrayVec<(u64, i64), 32>)
    ensures
        links_of(r) == Seq::<(u64, i64)>::empty(),
{
    ArrayVec::new()
}

/// Relies on ArrayVec::push: appends at the end; it panics only when full.
#[verifier::external_body]
pub(crate) fn stack_push(s: &mut ArrayVec<(u64, i64), 32>, link: (u64, i64))
    requires
        links_of(*old(s)).len() < 32,
    ensures
        links_of(*final(s)) == links_of(*old(s)).push(link),
{
    s.push(link)
}

/// Relies on ArrayVec::pop: removes and returns the last element.
#[verifier::external_body]
pub(crate) fn stack_pop(s: &mut ArrayVec<(u64, i64), 32>) -> (r: Option<(u64, i64)>)
    ensures
        links_of(*old(s)).len() == 0 ==> r is None && links_of(*final(s)) == links_of(*old(s)),
        links_of(*old(s)).len() > 0 ==> r == Some(links_of(*old(s)).last())
            && links_of(*final(s)) == links_of(*old(s)).drop_last(),
{
    s.pop()
}

/// Relies on ArrayVec::as_slice: the elements, oldest first.
#[verifier::external_body]
pub(crate) fn stack_slice(s: &ArrayVec<(u64, i64), 32>) -> (r: &[(u64, i64)])
    ensures
        r@ == links_of(*s),
{
    s.as_slice()
}

} // verus!
