//! Flat four-channel records and their conversion from and to `CogRecord8K`.
//!
//! `CogRecord` holds a record as four byte arrays, the layout that columnar
//! storage and the batch kernels consume.  Field mapping:
//! `meta -> meta`, `cam -> cam`, `index -> btree`, `embed -> embed`.
use vstd::prelude::*;
use crate::le_bytes::{words_to_bytes, bytes_to_words, lemma_words_bytes_words, lemma_bytes_words_bytes};
use crate::cogrecord8k::CogRecord8K;
use crate::simd_bridge::{wide_to_array, array_to_wide};

verus! {

/// A record as four byte arrays: META, CAM, BTREE (index), EMBED.
#[derive(Clone, Debug)]
pub struct CogRecord {
    pub meta: Vec<u8>,
    pub cam: Vec<u8>,
    pub btree: Vec<u8>,
    pub embed: Vec<u8>,
}

/// `c` holds the four slots of `r` as little-endian byte arrays.
pub open spec fn flat_of(r: CogRecord8K, c: CogRecord) -> bool {
    &&& c.meta@ == words_to_bytes(r.meta.words@)
    &&& c.cam@ == words_to_bytes(r.cam.words@)
    &&& c.btree@ == words_to_bytes(r.index.words@)
    &&& c.embed@ == words_to_bytes(r.embed.words@)
}

/// Every channel of `c` is 2048 bytes long.
pub open spec fn channels_wf(c: CogRecord) -> bool {
    &&& c.meta@.len() == 2048
    &&& c.cam@.len() == 2048
    &&& c.btree@.len() == 2048
    &&& c.embed@.len() == 2048
}

/// The record `r` read back from the channels of `c`.
pub open spec fn unflat_of(c: CogRecord, r: CogRecord8K) -> bool {
    &&& r.meta.words@ == bytes_to_words(c.meta@, 256)
    &&& r.cam.words@ == bytes_to_words(c.cam@, 256)
    &&& r.index.words@ == bytes_to_words(c.btree@, 256)
    &&& r.embed.words@ == bytes_to_words(c.embed@, 256)
}

impl CogRecord {
    /// The concatenated channels.
    pub open spec fn byte_seq(self) -> Seq<u8> {
        self.meta@ + self.cam@ + self.btree@ + self.embed@
    }

    /// Record from its four channels.
    pub fn new(meta: Vec<u8>, cam: Vec<u8>, btree: Vec<u8>, embed: Vec<u8>) -> (r: Self)
        ensures
            r.meta@ == meta@,
            r.cam@ == cam@,
            r.btree@ == btree@,
            r.embed@ == embed@,
    {
        CogRecord { meta, cam, btree, embed }
    }

    /// The channels concatenated: META | CAM | BTREE | EMBED.
    pub fn to_bytes(&self) -> (r: Vec<u8>)
        ensures
            r@ == self.byte_seq(),
    {
        let mut out: Vec<u8> = Vec::new();
        out.extend_from_slice(self.meta.as_slice());
        out.extend_from_slice(self.cam.as_slice());
        out.extend_from_slice(self.btree.as_slice());
        out.extend_from_slice(self.embed.as_slice());
        assert(out@ =~= self.byte_seq());
        out
    }
}

/// Flat form of a `CogRecord8K` (the index slot becomes the btree channel).
pub fn record8k_to_cogrecord(record: &CogRecord8K) -> (r: CogRecord)
    ensures
        flat_of(*record, r),
        channels_wf(r),
        r.byte_seq() == record.byte_seq(),
{
    CogRecord::new(
        wide_to_array(&record.meta),
        wide_to_array(&record.cam),
        wide_to_array(&record.index),
        wide_to_array(&record.embed),
    )
}

/// `CogRecord8K` read back from a flat record with 2048-byte channels.
pub fn cogrecord_to_record8k(record: &CogRecord) -> (r: CogRecord8K)
    requires
        channels_wf(*record),
    ensures
        unflat_of(*record, r),
{
    CogRecord8K {
        meta: array_to_wide(&record.meta),
        cam: array_to_wide(&record.cam),
        index: array_to_wide(&record.btree),
        embed: array_to_wide(&record.embed),
    }
}

/// Flat form of every record, in order.
pub fn batch_to_cogrecords(records: &[CogRecord8K]) -> (r: Vec<CogRecord>)
    ensures
        r@.len() == records@.len(),
        forall|i: int| 0 <= i < records@.len() ==> flat_of(records@[i], #[trigger] r@[i]) && channels_wf(r@[i]),
{
    let mut out: Vec<CogRecord> = Vec::with_capacity(records.len());
    for i in 0..records.len()
        invariant
            out@.len() == i,
            forall|j: int| 0 <= j < i ==> flat_of(records@[j], #[trigger] out@[j]) && channels_wf(out@[j]),
    {
        out.push(record8k_to_cogrecord(&records[i]));
    }
    out
}

/// Every flat record read back as a `CogRecord8K`, in order.
pub fn batch_to_record8k(records: &[CogRecord]) -> (r: Vec<CogRecord8K>)
    requires
        forall|i: int| 0 <= i < records@.len() ==> channels_wf(#[trigger] records@[i]),
    ensures
        r@.len() == records@.len(),
        forall|i: int| 0 <= i < records@.len() ==> unflat_of(records@[i], #[trigger] r@[i]),
{
    let mut out: Vec<CogRecord8K> = Vec::with_capacity(records.len());
    for i in 0..records.len()
        invariant
            forall|j: int| 0 <= j < records@.len() ==> channels_wf(#[trigger] records@[j]),
            out@.len() == i,
            forall|j: int| 0 <= j < i ==> unflat_of(records@[j], #[trigger] out@[j]),
    {
        out.push(cogrecord_to_record8k(&records[i]));
    }
    out
}

/// Converting a `CogRecord8K` to flat form and back gives the same slots.
pub proof fn lemma_record_roundtrip(r: CogRecord8K, c: CogRecord, back: CogRecord8K)
    requires
        flat_of(r, c),
        unflat_of(c, back),
    ensures
        back.meta.words@ == r.meta.words@,
        back.cam.words@ == r.cam.words@,
        back.index.words@ == r.index.words@,
        back.embed.words@ == r.embed.words@,
{
    lemma_words_bytes_words(r.meta.words@);
    lemma_words_bytes_words(r.cam.words@);
    lemma_words_bytes_words(r.index.words@);
    lemma_words_bytes_words(r.embed.words@);
}

/// Converting a flat record with 2048-byte channels to a `CogRecord8K` and
/// back gives the same channels.
pub proof fn lemma_flat_roundtrip(c: CogRecord, r: CogRecord8K, back: CogRecord)
    requires
        channels_wf(c),
        unflat_of(c, r),
        flat_of(r, back),
    ensures
        back.meta@ == c.meta@,
        back.cam@ == c.cam@,
        back.btree@ == c.btree@,
        back.embed@ == c.embed@,
{
    lemma_bytes_words_bytes(c.meta@, 256);
    lemma_bytes_words_bytes(c.cam@, 256);
    lemma_bytes_words_bytes(c.btree@, 256);
    lemma_bytes_words_bytes(c.embed@, 256);
}

} // verus!
