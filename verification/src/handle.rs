//! Shared handles.
//!
//! Blocks and segments are shared between a cache and the scans that read
//! them.  A handle is a reference-counted pointer; to the verifier it is the
//! value it points to.

use vstd::prelude::*;
use std::rc::Rc;

verus! {

/// Another handle to the value behind `handle`.
///
/// Trusted: calls `Rc::clone`, which returns a pointer to the same
/// allocation, so the new handle is the same value.
#[verifier::external_body]
pub(crate) fn share<T>(handle: &Rc<T>) -> (r: Rc<T>)
    ensures
        r == *handle,
{
    Rc::clone(handle)
}

/// How many handles to this value are alive.
///
/// Trusted: calls `Rc::strong_count`.  The count depends on what the rest
/// of the program holds, so nothing is claimed of it but that the handle
/// in hand is counted.
#[verifier::external_body]
pub(crate) fn holders<T>(handle: &Rc<T>) -> (n: usize)
    ensures
        n >= 1,
{
    Rc::strong_count(handle)
}

} // verus!
