use vstd::prelude::*;

verus! {

/// Owned binary keys and values.
pub type Bytes = Vec<u8>;

} // verus!
