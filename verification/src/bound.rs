//! Bounds of a user-key range.
use vstd::prelude::*;

use crate::key::{bytes_less, bytes_lt};

verus! {

/// One end of a user-key range.
#[derive(Debug, Clone, PartialEq, Eq)]
pub enum KeyBound {
    Included(Vec<u8>),
    Excluded(Vec<u8>),
    Unbounded,
}

/// The abstract value of a bound.
pub enum BoundView {
    Included(Seq<u8>),
    Excluded(Seq<u8>),
    Unbounded,
}

impl View for KeyBound {
    type V = BoundView;

    open spec fn view(&self) -> BoundView {
        match self {
            KeyBound::Included(b) => BoundView::Included(b@),
            KeyBound::Excluded(b) => BoundView::Excluded(b@),
            KeyBound::Unbounded => BoundView::Unbounded,
        }
    }
}

/// Whether `key` lies on the right side of `lower`.
pub open spec fn above_lower(key: Seq<u8>, lower: BoundView) -> bool {
    match lower {
        BoundView::Included(b) => !bytes_lt(key, b),
        BoundView::Excluded(b) => bytes_lt(b, key),
        BoundView::Unbounded => true,
    }
}

/// Whether `key` lies on the right side of `upper`.
pub open spec fn below_upper(key: Seq<u8>, upper: BoundView) -> bool {
    match upper {
        BoundView::Included(b) => !bytes_lt(b, key),
        BoundView::Excluded(b) => bytes_lt(key, b),
        BoundView::Unbounded => true,
    }
}

/// Whether `key` lies between `lower` and `upper`.
pub open spec fn in_range(key: Seq<u8>, lower: BoundView, upper: BoundView) -> bool {
    above_lower(key, lower) && below_upper(key, upper)
}

impl KeyBound {
    /// A copy of this bound.
    pub fn duplicate(&self) -> (r: KeyBound)
        ensures
            r@ == self@,
    {
        match self {
            KeyBound::Included(b) => KeyBound::Included(b.clone()),
            KeyBound::Excluded(b) => KeyBound::Excluded(b.clone()),
            KeyBound::Unbounded => KeyBound::Unbounded,
        }
    }
}

/// Whether `key` lies between `lower` and `upper`.
pub fn within_bounds(key: &[u8], lower: &KeyBound, upper: &KeyBound) -> (r: bool)
    ensures
        r == in_range(key@, lower@, upper@),
{
    let lower_ok = match lower {
        KeyBound::Included(bound) => !bytes_less(key, bound.as_slice()),
        KeyBound::Excluded(bound) => bytes_less(bound.as_slice(), key),
        KeyBound::Unbounded => true,
    };
    let upper_ok = match upper {
        KeyBound::Included(bound) => !bytes_less(bound.as_slice(), key),
        KeyBound::Excluded(bound) => bytes_less(key, bound.as_slice()),
        KeyBound::Unbounded => true,
    };
    lower_ok && upper_ok
}

} // verus!
