use vstd::prelude::*;

verus! {

/// Closes [`super::UnsignedInt`] to the integer widths of this crate.
pub trait Sealed {
}

impl Sealed for usize {
}

impl Sealed for u8 {
}

impl Sealed for u16 {
}

impl Sealed for u32 {
}

} // verus!
