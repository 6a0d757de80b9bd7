//! Shared ownership of persistent structures.

use std::rc::Rc;

use vstd::prelude::*;

verus! {

/// `Rc::clone`: a second pointer to the same allocation, so the same value.
#[verifier::external_body]
pub(crate) fn share<T>(rc: &Rc<T>) -> (shared: Rc<T>)
    ensures
        shared == *rc,
{
    Rc::clone(rc)
}

} // verus!
