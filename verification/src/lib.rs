//! HDR POPCNT sweep engine: visual recognition via Hamming resonance on
//! binary containers.
//!
//! Containers are the weights, Hamming distance is the activation, XOR-bind
//! is the learning and POPCNT is the neuron.  A query is compared against a
//! corpus in three stages of growing width (spot, center-weighted, full),
//! and every surviving match gets an HDR exposure score from 0 to 6.
use vstd::prelude::*;

pub mod bits;
pub mod rng;
pub mod le_bytes;
pub mod container;
pub mod hdr;
pub mod wide_container;
pub mod cogrecord8k;
pub mod staged;
pub mod sweep;
pub mod wide_sweep;
pub mod container_ext;
pub mod cascade;
pub mod hybrid_recognition;
pub mod simd_bridge;
pub mod storage;
pub mod blackboard_sweep;
pub mod ingest;
pub mod thirds;
pub mod exposure;
pub mod evaluate;
pub mod separation;

pub use container::{Container, CONTAINER_BITS, CONTAINER_WORDS, CONTAINER_BYTES};
pub use wide_container::{WideContainer, WIDE_BITS, WIDE_BYTES, WIDE_WORDS};
pub use cogrecord8k::{CogRecord8K, RECORD8K_BITS, RECORD8K_BYTES, SLOT_META, SLOT_CAM, SLOT_INDEX, SLOT_EMBED};

verus! {

/// HDR exposure score (0-6 scale): 3 if blazing, 2 if solid, 1 if weak.
#[derive(Debug, Clone, Copy, PartialEq, Eq, Structural, PartialOrd, Ord)]
pub struct HdrScore {
    pub hot: u8,
    pub mid: u8,
    pub cold: u8,
}

impl HdrScore {
    /// Score of `dist` in a `d`-bit space with the bands "below 10%",
    /// "below 30%" and "below 49%" of `d`, compared exactly.
    pub open spec fn from_hamming_spec(dist: u32, d: u32) -> HdrScore {
        HdrScore {
            hot: if 10 * dist < d { 3 } else { 0 },
            mid: if 10 * dist < 3 * d { 2 } else { 0 },
            cold: if 100 * dist < 49 * d { 1 } else { 0 },
        }
    }

    /// Sum of the three bands.
    pub fn total(&self) -> (r: u8)
        requires
            self.hot + self.mid + self.cold <= 255,
        ensures
            r == self.hot + self.mid + self.cold,
    {
        self.hot + self.mid + self.cold
    }

    /// HDR score from a raw Hamming distance `dist` over `d` bits.
    pub fn from_hamming(dist: u32, d: u32) -> (r: Self)
        ensures
            r == Self::from_hamming_spec(dist, d),
    {
        let x = dist as u64;
        let n = d as u64;
        Self {
            hot: if 10 * x < n { 3 } else { 0 },
            mid: if 10 * x < 3 * n { 2 } else { 0 },
            cold: if 100 * x < 49 * n { 1 } else { 0 },
        }
    }
}

/// A match found by a sweep: corpus index, Hamming distance, exposure.
#[derive(Debug, Clone, Copy)]
pub struct ResonanceMatch {
    pub index: usize,
    pub distance: u32,
    pub hdr: HdrScore,
}

} // verus!
