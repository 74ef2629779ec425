//! Shared ownership of immutable values.
use vstd::prelude::*;

use std::sync::Arc;

verus! {

/// Another handle to the same value: `Arc::clone`, which the standard library documents
/// as producing a new pointer to the same allocation. The contract claims that the new
/// handle points to a value equal to the old one.
#[verifier::external_body]
pub(crate) fn share<T>(a: &Arc<T>) -> (r: Arc<T>)
    ensures
        r == *a,
{
    Arc::clone(a)
}

} // verus!
