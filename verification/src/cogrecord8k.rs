//! The 8 KB cognitive record: four 16384-bit slots.
//!
//! Byte layout: META (0..2048) | CAM (2048..4096) | INDEX (4096..6144) |
//! EMBED (6144..8192).
use vstd::prelude::*;
use crate::wide_container::WideContainer;
use crate::le_bytes::{words_to_bytes, push_words_le};

verus! {

/// Number of bits in a record.
pub const RECORD8K_BITS: usize = 65536;
/// Number of bytes in a record.
pub const RECORD8K_BYTES: usize = 8192;
/// Slot of the metadata container.
pub const SLOT_META: usize = 0;
/// Slot of the content-addressable (binary resonance) container.
pub const SLOT_CAM: usize = 1;
/// Slot of the index container.
pub const SLOT_INDEX: usize = 2;
/// Slot of the embedding container.
pub const SLOT_EMBED: usize = 3;

/// Four wide containers: META, CAM, INDEX, EMBED.
#[derive(Clone, Copy, Debug, PartialEq, Eq)]
pub struct CogRecord8K {
    pub meta: WideContainer,
    pub cam: WideContainer,
    pub index: WideContainer,
    pub embed: WideContainer,
}

impl CogRecord8K {
    /// The record's 8192 bytes: the four slots' little-endian bytes in order.
    pub open spec fn byte_seq(self) -> Seq<u8> {
        words_to_bytes(self.meta.words@) + words_to_bytes(self.cam.words@) + words_to_bytes(
            self.index.words@,
        ) + words_to_bytes(self.embed.words@)
    }

    /// The all-zero record.
    pub fn new() -> (r: Self)
        ensures
            forall|i: int|
                0 <= i < 256 ==> #[trigger] r.meta.words@[i] == 0 && r.cam.words@[i] == 0
                    && r.index.words@[i] == 0 && r.embed.words@[i] == 0,
    {
        CogRecord8K {
            meta: WideContainer::zero(),
            cam: WideContainer::zero(),
            index: WideContainer::zero(),
            embed: WideContainer::zero(),
        }
    }

    /// The record as 8192 bytes, slot after slot.
    pub fn as_bytes(&self) -> (r: Vec<u8>)
        ensures
            r@ == self.byte_seq(),
            r@.len() == 8192,
    {
        let mut out: Vec<u8> = Vec::with_capacity(8192);
        push_words_le(&mut out, self.meta.words.as_slice());
        push_words_le(&mut out, self.cam.words.as_slice());
        push_words_le(&mut out, self.index.words.as_slice());
        push_words_le(&mut out, self.embed.words.as_slice());
        assert(out@ =~= self.byte_seq());
        out
    }
}

} // verus!
