use vstd::prelude::*;

verus! {

/// Closes the forward-index traits to the strategies of this crate.
pub trait Sealed {
}

} // verus!
