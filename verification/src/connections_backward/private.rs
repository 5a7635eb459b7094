use vstd::prelude::*;

verus! {

/// Closes the backward-index traits to the strategies of this crate.
pub trait Sealed {
}

} // verus!
