use vstd::prelude::*;
use vstd::std_specs::hash::obeys_key_model;

mod sealed;

verus! {

/// An unsigned integer width in which node identifiers are stored.
///
/// Every value stands for one slot index; the conversion to `usize` is
/// lossless, the conversion from `usize` is exact on the indices that fit.
pub trait UnsignedInt: sealed::Sealed + Copy + core::fmt::Debug + core::hash::Hash + Eq {
    /// The slot index that this identifier stands for.
    spec fn index(self) -> usize;

    /// The largest slot index that this width can hold.
    spec fn max_index() -> usize;

    /// No identifier stands for an index above `max_index`.
    proof fn lemma_index_bounded(self)
        ensures
            self.index() <= Self::max_index(),
    ;

    /// Two identifiers that stand for the same index are the same value.
    proof fn lemma_index_injective(a: Self, b: Self)
        requires
            a.index() == b.index(),
        ensures
            a == b,
    ;

    /// Identifiers hash and compare by value, as a hash table needs of its keys.
    proof fn lemma_key_model()
        ensures
            obeys_key_model::<Self>(),
    ;

    /// The slot index of this identifier; nothing is lost.
    fn to_usize(&self) -> (r: usize)
        ensures
            r == self.index(),
    ;

    /// The identifier of the slot index `value`. A value that does not fit
    /// the width is cut down to it: ask `fits` first.
    fn from_usize(value: usize) -> (r: Self)
        ensures
            value <= Self::max_index() ==> r.index() == value,
            r.index() == (value as int) % (Self::max_index() + 1),
    ;

    /// Whether `value` is an index that this width can hold.
    fn fits(value: usize) -> (r: bool)
        ensures
            r == (value <= Self::max_index()),
    ;
}

impl UnsignedInt for usize {
    open spec fn index(self) -> usize {
        self
    }

    open spec fn max_index() -> usize {
        usize::MAX
    }

    proof fn lemma_index_bounded(self) {
    }

    proof fn lemma_index_injective(a: Self, b: Self) {
    }

    proof fn lemma_key_model() {
        broadcast use vstd::std_specs::hash::axiom_usize_obeys_hash_table_key_model;
    }

    fn to_usize(&self) -> (r: usize) {
        *self
    }

    fn from_usize(value: usize) -> (r: Self) {
        value
    }

    fn fits(value: usize) -> (r: bool) {
        true
    }
}

impl UnsignedInt for u8 {
    open spec fn index(self) -> usize {
        self as usize
    }

    open spec fn max_index() -> usize {
        0xff
    }

    proof fn lemma_index_bounded(self) {
    }

    proof fn lemma_index_injective(a: Self, b: Self) {
    }

    proof fn lemma_key_model() {
        broadcast use vstd::std_specs::hash::axiom_u8_obeys_hash_table_key_model;
    }

    fn to_usize(&self) -> (r: usize) {
        *self as usize
    }

    fn from_usize(value: usize) -> (r: Self) {
        assert(value as u8 == value % 256) by (bit_vector);
        value as u8
    }

    fn fits(value: usize) -> (r: bool) {
        value <= 0xff
    }
}

impl UnsignedInt for u16 {
    open spec fn index(self) -> usize {
        self as usize
    }

    open spec fn max_index() -> usize {
        0xffff
    }

    proof fn lemma_index_bounded(self) {
    }

    proof fn lemma_index_injective(a: Self, b: Self) {
    }

    proof fn lemma_key_model() {
        broadcast use vstd::std_specs::hash::axiom_u16_obeys_hash_table_key_model;
    }

    fn to_usize(&self) -> (r: usize) {
        *self as usize
    }

    fn from_usize(value: usize) -> (r: Self) {
        assert(value as u16 == value % 65536) by (bit_vector);
        value as u16
    }

    fn fits(value: usize) -> (r: bool) {
        value <= 0xffff
    }
}

impl UnsignedInt for u32 {
    open spec fn index(self) -> usize {
        self as usize
    }

    open spec fn max_index() -> usize {
        0xffff_ffff
    }

    proof fn lemma_index_bounded(self) {
    }

    proof fn lemma_index_injective(a: Self, b: Self) {
    }

    proof fn lemma_key_model() {
        broadcast use vstd::std_specs::hash::axiom_u32_obeys_hash_table_key_model;
    }

    fn to_usize(&self) -> (r: usize) {
        *self as usize
    }

    fn from_usize(value: usize) -> (r: Self) {
        assert(value as u32 as u64 == (value as u64) % 0x1_0000_0000u64) by (bit_vector);
        value as u32
    }

    fn fits(value: usize) -> (r: bool) {
        value <= 0xffff_ffff
    }
}

} // verus!
