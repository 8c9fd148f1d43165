//! Calls into outside crates, each with the contract that the crate's source shows.

use arrayvec::ArrayVec;
use vstd::prelude::*;

verus! {

/// Relies on vecmath::vec2_add: the componentwise sum of two vectors.
#[verifier::external_body]
pub(crate) fn vec2_add(a: [isize; 2], b: [isize; 2]) -> (r: [isize; 2])
    requires
        isize::MIN <= a[0] + b[0] <= isize::MAX,
        isize::MIN <= a[1] + b[1] <= isize::MAX,
    ensures
        r[0] == a[0] + b[0],
        r[1] == a[1] + b[1],
{
    vecmath::vec2_add(a, b)
}

#[verifier::external_type_specification]
#[verifier::external_body]
#[verifier::reject_recursive_types(T)]
pub struct ExArrayVec<T, const CAP: usize>(ArrayVec<T, CAP>);

/// The run lengths held by an `ArrayVec`, first pushed first.
pub uninterp spec fn run_items(v: ArrayVec<u32, 8>) -> Seq<u32>;

/// Relies on arrayvec::ArrayVec::new: a new vector is empty.
#[verifier::external_body]
pub(crate) fn new_runs() -> (v: ArrayVec<u32, 8>)
    ensures
        run_items(v) == Seq::<u32>::empty(),
{
    ArrayVec::new()
}

/// Relies on arrayvec::ArrayVec::push: appends one element; it panics only when full.
#[verifier::external_body]
pub(crate) fn push_run(v: &mut ArrayVec<u32, 8>, x: u32)
    requires
        run_items(*old(v)).len() < 8,
    ensures
        run_items(*final(v)) == run_items(*old(v)).push(x),
{
    v.push(x)
}

/// Relies on arrayvec::ArrayVec::into_inner: the array of all elements when the
/// vector is full, the vector itself otherwise.
#[verifier::external_body]
pub(crate) fn runs_into_array(v: ArrayVec<u32, 8>) -> (r: Result<[u32; 8], ArrayVec<u32, 8>>)
    ensures
        r is Ok <==> run_items(v).len() >= 8,
        r is Ok ==> r->Ok_0@ == run_items(v),
{
    v.into_inner()
}

} // verus!
