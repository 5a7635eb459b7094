use vstd::prelude::*;

verus! {

/// Closes the graph traits to the graph of this crate.
pub trait GraphSealed {
}

} // verus!
