//! Batch record search over flat buffers.
//!
//! The engine owns two flat byte buffers: an 8192-byte query record and a
//! database of `capacity` 8192-byte records, of which the first `len` are
//! in use.  A sweep runs the four-channel cascade directly on the buffers:
//! a record is rejected on the first channel (META, CAM, INDEX, EMBED) whose
//! Hamming distance to the query's channel exceeds that channel's threshold.
use vstd::prelude::*;
use crate::bits::{hamming_range, lemma_hamming_range_le, lemma_hamming_range_self};
use crate::le_bytes::{le_word, bytes_to_words, read_word_le};
use crate::cogrecord8k::CogRecord8K;
use crate::storage::{CogRecord, record8k_to_cogrecord, cogrecord_to_record8k, flat_of, unflat_of,
    channels_wf};
use vstd::arithmetic::power2::pow2;

verus! {

/// Bytes per record (four 2048-byte channels).
pub const RECORD_BYTES: usize = 8192;

/// Hamming distance between the 2048-byte channels `a[aoff..]` and `b[boff..]`.
pub open spec fn channel_distance(a: Seq<u8>, aoff: int, b: Seq<u8>, boff: int) -> nat {
    hamming_range(
        bytes_to_words(a.subrange(aoff, aoff + 2048), 256),
        bytes_to_words(b.subrange(boff, boff + 2048), 256),
        0,
        256,
    )
}

/// Distance of channel `c` of `record` to channel `c` of `query`.
pub open spec fn record_distance(query: Seq<u8>, record: Seq<u8>, c: int) -> nat {
    channel_distance(query, 2048 * c, record, 2048 * c)
}

/// A record accepted by the sweep: its four channel distances and index.
#[derive(Clone, Copy, Debug)]
pub struct RecordMatch {
    pub index: usize,
    pub distances: [u64; 4],
}

/// `record` is within every channel threshold of `query`.
pub open spec fn record_accepted(query: Seq<u8>, record: Seq<u8>, thresholds: [u64; 4]) -> bool {
    &&& record_distance(query, record, 0) <= thresholds[0]
    &&& record_distance(query, record, 1) <= thresholds[1]
    &&& record_distance(query, record, 2) <= thresholds[2]
    &&& record_distance(query, record, 3) <= thresholds[3]
}

/// The match reported for record `i`.
pub open spec fn record_match(query: Seq<u8>, record: Seq<u8>, i: int) -> RecordMatch {
    RecordMatch {
        index: i as usize,
        distances: [
            record_distance(query, record, 0) as u64,
            record_distance(query, record, 1) as u64,
            record_distance(query, record, 2) as u64,
            record_distance(query, record, 3) as u64,
        ],
    }
}

/// Accepted records among the first `m`, in order.
pub open spec fn record_hits(query: Seq<u8>, records: Seq<Seq<u8>>, thresholds: [u64; 4], m: int) -> Seq<
    RecordMatch,
>
    decreases m,
{
    if m <= 0 {
        Seq::empty()
    } else if record_accepted(query, records[m - 1], thresholds) {
        record_hits(query, records, thresholds, m - 1).push(record_match(query, records[m - 1], m - 1))
    } else {
        record_hits(query, records, thresholds, m - 1)
    }
}

/// Smallest power of two that is at least `x` (1 for 0), searched from `p`.
pub open spec fn pow2_at_least_from(p: nat, x: nat) -> nat
    decreases (if p < x { x - p } else { 0 }),
{
    if p >= x || p == 0 {
        p
    } else {
        pow2_at_least_from(2 * p, x)
    }
}

/// Smallest power of two that is at least `x` (1 for 0).
pub open spec fn pow2_at_least(x: nat) -> nat {
    pow2_at_least_from(1, x)
}

/// Capacity after making room for `required` records: unchanged when it
/// suffices, otherwise the next power of two of `required`, at least 16.
pub open spec fn grown_capacity(capacity: nat, required: nat) -> nat {
    if required <= capacity {
        capacity
    } else if pow2_at_least(required) < 16 {
        16
    } else {
        pow2_at_least(required)
    }
}

proof fn lemma_pow2_at_least_from(p: nat, x: nat)
    requires
        1 <= p,
    ensures
        pow2_at_least_from(p, x) >= x,
        pow2_at_least_from(p, x) >= p,
        p < x ==> pow2_at_least_from(p, x) < 2 * x,
    decreases (if p < x { x - p } else { 0 }),
{
    if p < x {
        lemma_pow2_at_least_from(2 * p, x);
    }
}

/// Smallest power of two that is at least `x`.
fn next_power_of_two(x: usize) -> (r: usize)
    requires
        x <= usize::MAX / 2,
    ensures
        r == pow2_at_least(x as nat),
        r >= x,
        r >= 1,
        r <= 2 * x || r == 1,
{
    let mut p: usize = 1;
    proof {
        lemma_pow2_at_least_from(1, x as nat);
    }
    while p < x
        invariant
            1 <= p,
            p < 2 * x || p == 1,
            x <= usize::MAX / 2,
            pow2_at_least_from(p as nat, x as nat) == pow2_at_least(x as nat),
        decreases 2 * x - p,
    {
        p = p * 2;
    }
    proof {
        lemma_pow2_at_least_from(1, x as nat);
    }
    p
}

/// Copy `src` into `dst` starting at `off`.
fn copy_into(dst: &mut Vec<u8>, off: usize, src: &[u8])
    requires
        off + src@.len() <= old(dst)@.len(),
    ensures
        final(dst)@ == old(dst)@.subrange(0, off as int) + src@ + old(dst)@.subrange(
            off + src@.len(),
            old(dst)@.len() as int,
        ),
{
    let n = src.len();
    let dlen = dst.len();
    for j in 0..n
        invariant
            n == src@.len(),
            dlen == dst@.len(),
            off + n <= dst@.len(),
            dst@.len() == old(dst)@.len(),
            forall|k: int| 0 <= k < dst@.len() ==> #[trigger] dst@[k] == if off <= k < off + j {
                src@[k - off]
            } else {
                old(dst)@[k]
            },
    {
        dst.set(off + j, src[j]);
    }
    assert(dst@ =~= old(dst)@.subrange(0, off as int) + src@ + old(dst)@.subrange(
        off + src@.len(),
        old(dst)@.len() as int,
    ));
}

/// Hamming distance between the 2048-byte channels `a[aoff..]` and `b[boff..]`.
pub fn channel_hamming(a: &[u8], aoff: usize, b: &[u8], boff: usize) -> (r: u64)
    requires
        aoff + 2048 <= a@.len(),
        boff + 2048 <= b@.len(),
    ensures
        r == channel_distance(a@, aoff as int, b@, boff as int),
        r <= 16384,
{
    let ghost wa = bytes_to_words(a@.subrange(aoff as int, aoff + 2048), 256);
    let ghost wb = bytes_to_words(b@.subrange(boff as int, boff + 2048), 256);
    let alen = a.len();
    let blen = b.len();
    let mut d: u64 = 0;
    for i in 0..256usize
        invariant
            alen == a@.len(),
            blen == b@.len(),
            aoff + 2048 <= a@.len(),
            boff + 2048 <= b@.len(),
            wa == bytes_to_words(a@.subrange(aoff as int, aoff + 2048), 256),
            wb == bytes_to_words(b@.subrange(boff as int, boff + 2048), 256),
            d == hamming_range(wa, wb, 0, i as int),
            d <= 64 * i,
    {
        proof {
            lemma_hamming_range_le(wa, wb, 0, i + 1);
        }
        let x = read_word_le(a, aoff + 8 * i);
        let y = read_word_le(b, boff + 8 * i);
        assert(le_word(a@, aoff + 8 * i) == le_word(a@.subrange(aoff as int, aoff + 2048), 8 * i));
        assert(le_word(b@, boff + 8 * i) == le_word(b@.subrange(boff as int, boff + 2048), 8 * i));
        d = d + (x ^ y).count_ones() as u64;
    }
    d
}

/// Distances of entry `i` of four column buffers (2048 bytes per entry) to
/// the channels of `query`, in channel order.
pub open spec fn column_distances(
    query: Seq<u8>,
    meta: Seq<u8>,
    cam: Seq<u8>,
    btree: Seq<u8>,
    embed: Seq<u8>,
    i: int,
) -> [u64; 4] {
    [
        channel_distance(query, 0, meta, 2048 * i) as u64,
        channel_distance(query, 2048, cam, 2048 * i) as u64,
        channel_distance(query, 4096, btree, 2048 * i) as u64,
        channel_distance(query, 6144, embed, 2048 * i) as u64,
    ]
}

/// Entries among the first `m` of the columns that are within every
/// channel threshold of `query`, with their distances.
pub open spec fn column_hits(
    query: Seq<u8>,
    meta: Seq<u8>,
    cam: Seq<u8>,
    btree: Seq<u8>,
    embed: Seq<u8>,
    thresholds: [u64; 4],
    m: int,
) -> Seq<(usize, [u64; 4])>
    decreases m,
{
    if m <= 0 {
        Seq::empty()
    } else {
        let prev = column_hits(query, meta, cam, btree, embed, thresholds, m - 1);
        let d = column_distances(query, meta, cam, btree, embed, m - 1);
        if d[0] <= thresholds[0] && d[1] <= thresholds[1] && d[2] <= thresholds[2] && d[3] <= thresholds[3] {
            prev.push(((m - 1) as usize, d))
        } else {
            prev
        }
    }
}

/// A record equal to the query is at distance 0 on every channel, so the
/// record cascade accepts it whatever the thresholds.
pub proof fn lemma_identical_record_accepted(query: Seq<u8>, thresholds: [u64; 4])
    ensures
        record_accepted(query, query, thresholds),
        record_match(query, query, 0).distances == [0u64, 0u64, 0u64, 0u64],
{
    lemma_hamming_range_self(bytes_to_words(query.subrange(0, 2048), 256), 0, 256);
    lemma_hamming_range_self(bytes_to_words(query.subrange(2048, 4096), 256), 0, 256);
    lemma_hamming_range_self(bytes_to_words(query.subrange(4096, 6144), 256), 0, 256);
    lemma_hamming_range_self(bytes_to_words(query.subrange(6144, 8192), 256), 0, 256);
    assert(record_match(query, query, 0).distances =~= [0u64, 0u64, 0u64, 0u64]);
}

/// Column buffers laid out from `records`: entry `i` of column `c` (META,
/// CAM, INDEX, EMBED) holds channel `c` of record `i`.
pub open spec fn columns_of(
    records: Seq<Seq<u8>>,
    meta: Seq<u8>,
    cam: Seq<u8>,
    btree: Seq<u8>,
    embed: Seq<u8>,
    m: int,
) -> bool {
    &&& 2048 * m <= meta.len()
    &&& 2048 * m <= cam.len()
    &&& 2048 * m <= btree.len()
    &&& 2048 * m <= embed.len()
    &&& m <= records.len()
    &&& forall|i: int|
        0 <= i < m ==> {
            &&& (#[trigger] records[i]).len() == 8192
            &&& meta.subrange(2048 * i, 2048 * i + 2048) == records[i].subrange(0, 2048)
            &&& cam.subrange(2048 * i, 2048 * i + 2048) == records[i].subrange(2048, 4096)
            &&& btree.subrange(2048 * i, 2048 * i + 2048) == records[i].subrange(4096, 6144)
            &&& embed.subrange(2048 * i, 2048 * i + 2048) == records[i].subrange(6144, 8192)
        }
}

/// Scanning column buffers is scanning the records they were laid out
/// from: distance `c` of entry `i` is the distance between channel `c` of
/// the query and channel `c` of record `i`, and the accepted entries are
/// the records the four-channel record cascade accepts, in order, with
/// the same distances.
pub proof fn lemma_column_scan_is_record_scan(
    query: Seq<u8>,
    records: Seq<Seq<u8>>,
    meta: Seq<u8>,
    cam: Seq<u8>,
    btree: Seq<u8>,
    embed: Seq<u8>,
    thresholds: [u64; 4],
    m: int,
)
    requires
        0 <= m,
        columns_of(records, meta, cam, btree, embed, m),
    ensures
        forall|i: int, c: int|
            0 <= i < m && 0 <= c < 4 ==> #[trigger] column_distances(query, meta, cam, btree, embed, i)[c]
                == record_distance(query, records[i], c) as u64,
        column_hits(query, meta, cam, btree, embed, thresholds, m) == record_hits(query, records, thresholds, m).map_values(
            |r: RecordMatch| (r.index, r.distances),
        ),
    decreases m,
{
    assert forall|i: int, c: int|
        0 <= i < m && 0 <= c < 4 implies #[trigger] column_distances(query, meta, cam, btree, embed, i)[c]
        == record_distance(query, records[i], c) as u64 by {
        assert(records[i].len() == 8192);
    }
    if m > 0 {
        assert(columns_of(records, meta, cam, btree, embed, m - 1)) by {
            assert forall|i: int| 0 <= i < m - 1 implies (#[trigger] records[i]).len() == 8192 by {
                assert(records[i].len() == 8192);
            }
        }
        lemma_column_scan_is_record_scan(query, records, meta, cam, btree, embed, thresholds, m - 1);
        let i = m - 1;
        let d = column_distances(query, meta, cam, btree, embed, i);
        let rec = records[i];
        lemma_hamming_range_le(bytes_to_words(query.subrange(0, 2048), 256), bytes_to_words(rec.subrange(0, 2048), 256), 0, 256);
        lemma_hamming_range_le(bytes_to_words(query.subrange(2048, 4096), 256), bytes_to_words(rec.subrange(2048, 4096), 256), 0, 256);
        lemma_hamming_range_le(bytes_to_words(query.subrange(4096, 6144), 256), bytes_to_words(rec.subrange(4096, 6144), 256), 0, 256);
        lemma_hamming_range_le(bytes_to_words(query.subrange(6144, 8192), 256), bytes_to_words(rec.subrange(6144, 8192), 256), 0, 256);
        assert(d[0] == record_distance(query, records[i], 0) as u64);
        assert(d[1] == record_distance(query, records[i], 1) as u64);
        assert(d[2] == record_distance(query, records[i], 2) as u64);
        assert(d[3] == record_distance(query, records[i], 3) as u64);
        let g = |r: RecordMatch| (r.index, r.distances);
        let prev = record_hits(query, records, thresholds, m - 1);
        let x = record_match(query, records[i], i);
        assert(prev.push(x).map_values(g) =~= prev.map_values(g).push(g(x)));
        assert(x.distances =~= d);
        assert(g(x) == (i as usize, d));
        if record_accepted(query, rec, thresholds) {
            assert(column_hits(query, meta, cam, btree, embed, thresholds, m) == column_hits(
                query, meta, cam, btree, embed, thresholds, m - 1).push((i as usize, d)));
        } else {
            assert(column_hits(query, meta, cam, btree, embed, thresholds, m) == column_hits(
                query, meta, cam, btree, embed, thresholds, m - 1));
        }
    } else {
        assert(record_hits(query, records, thresholds, 0).map_values(|r: RecordMatch| (r.index, r.distances)) =~= Seq::<
            (usize, [u64; 4]),
        >::empty());
    }
}

/// An entry whose four column slices equal the query's four channels is at
/// distance 0 on every channel, so every threshold accepts it.
pub proof fn lemma_identical_entry_distances_zero(
    query: Seq<u8>,
    meta: Seq<u8>,
    cam: Seq<u8>,
    btree: Seq<u8>,
    embed: Seq<u8>,
    i: int,
)
    requires
        meta.subrange(2048 * i, 2048 * i + 2048) == query.subrange(0, 2048),
        cam.subrange(2048 * i, 2048 * i + 2048) == query.subrange(2048, 4096),
        btree.subrange(2048 * i, 2048 * i + 2048) == query.subrange(4096, 6144),
        embed.subrange(2048 * i, 2048 * i + 2048) == query.subrange(6144, 8192),
    ensures
        column_distances(query, meta, cam, btree, embed, i) == [0u64, 0u64, 0u64, 0u64],
{
    lemma_hamming_range_self(bytes_to_words(query.subrange(0, 2048), 256), 0, 256);
    lemma_hamming_range_self(bytes_to_words(query.subrange(2048, 4096), 256), 0, 256);
    lemma_hamming_range_self(bytes_to_words(query.subrange(4096, 6144), 256), 0, 256);
    lemma_hamming_range_self(bytes_to_words(query.subrange(6144, 8192), 256), 0, 256);
    assert(column_distances(query, meta, cam, btree, embed, i) =~= [0u64, 0u64, 0u64, 0u64]);
}

/// Four-channel cascade scan over column buffers: entry `i` of each column
/// is bytes `2048 * i .. 2048 * i + 2048`.  Returns the entries within every
/// channel threshold of `query`, in order, with their four distances; an
/// entry is rejected on the first channel that exceeds its threshold.
pub fn cascade_scan_8k(
    query: &CogRecord8K,
    meta: &[u8],
    cam: &[u8],
    btree: &[u8],
    embed: &[u8],
    n: usize,
    thresholds: [u64; 4],
) -> (r: Vec<(usize, [u64; 4])>)
    requires
        2048 * n <= meta@.len(),
        2048 * n <= cam@.len(),
        2048 * n <= btree@.len(),
        2048 * n <= embed@.len(),
    ensures
        r@ == column_hits(query.byte_seq(), meta@, cam@, btree@, embed@, thresholds, n as int),
{
    let qb = query.as_bytes();
    let q = qb.as_slice();
    let mut out: Vec<(usize, [u64; 4])> = Vec::new();
    let ml = meta.len();
    for i in 0..n
        invariant
            ml == meta@.len(),
            q@ == query.byte_seq(),
            q@.len() == 8192,
            2048 * n <= meta@.len(),
            2048 * n <= cam@.len(),
            2048 * n <= btree@.len(),
            2048 * n <= embed@.len(),
            out@ == column_hits(q@, meta@, cam@, btree@, embed@, thresholds, i as int),
    {
        let off = 2048 * i;
        let d0 = channel_hamming(q, 0, meta, off);
        if d0 <= thresholds[0] {
            let d1 = channel_hamming(q, 2048, cam, off);
            if d1 <= thresholds[1] {
                let d2 = channel_hamming(q, 4096, btree, off);
                if d2 <= thresholds[2] {
                    let d3 = channel_hamming(q, 6144, embed, off);
                    if d3 <= thresholds[3] {
                        out.push((i, [d0, d1, d2, d3]));
                    }
                }
            }
        }
    }
    out
}

/// A blackboard-backed sweep engine for batch record search.
pub struct BlackboardSweep {
    query: Vec<u8>,
    db: Vec<u8>,
    capacity: usize,
    len: usize,
}

impl BlackboardSweep {
    /// Buffer sizes agree with the capacity and the records in use fit.
    pub closed spec fn wf(self) -> bool {
        &&& self.query@.len() == RECORD_BYTES
        &&& self.db@.len() == self.capacity * RECORD_BYTES
        &&& self.len <= self.capacity
        &&& self.capacity * RECORD_BYTES <= usize::MAX
    }

    /// The records in use always fit the buffer.
    pub proof fn lemma_len_within_capacity(self)
        requires
            self.wf(),
        ensures
            self.len_spec() <= self.capacity_spec(),
            self.records().len() == self.len_spec(),
    {
    }

    /// Number of records in use.
    pub closed spec fn len_spec(self) -> nat {
        self.len as nat
    }

    /// Number of records the database buffer holds before it must grow.
    pub closed spec fn capacity_spec(self) -> nat {
        self.capacity as nat
    }

    /// The query record's bytes.
    pub closed spec fn query_bytes(self) -> Seq<u8> {
        self.query@
    }

    /// The records in use, each 8192 bytes.
    pub closed spec fn records(self) -> Seq<Seq<u8>> {
        Seq::new(self.len as nat, |i: int| self.db@.subrange(8192 * i, 8192 * i + 8192))
    }

    /// Engine with room for `n` records and an empty database.
    pub fn with_capacity(n: usize) -> (r: Self)
        requires
            n * RECORD_BYTES <= usize::MAX,
        ensures
            r.wf(),
            r.len_spec() == 0,
            r.capacity_spec() == n,
            r.records() == Seq::<Seq<u8>>::empty(),
            r.query_bytes().len() == RECORD_BYTES,
    {
        let mut query: Vec<u8> = Vec::new();
        query.resize(RECORD_BYTES, 0u8);
        let mut db: Vec<u8> = Vec::new();
        db.resize(n * RECORD_BYTES, 0u8);
        let r = BlackboardSweep { query, db, capacity: n, len: 0 };
        assert(r.records() =~= Seq::<Seq<u8>>::empty());
        r
    }

    /// Number of records in the database.
    pub fn len(&self) -> (r: usize)
        requires
            self.wf(),
        ensures
            r == self.len_spec(),
            r == self.records().len(),
    {
        self.len
    }

    /// Whether the database is empty.
    pub fn is_empty(&self) -> (r: bool)
        requires
            self.wf(),
        ensures
            r == (self.records().len() == 0),
    {
        self.len == 0
    }

    /// Capacity (records before the buffer grows).
    pub fn capacity(&self) -> (r: usize)
        requires
            self.wf(),
        ensures
            r == self.capacity_spec(),
            r >= self.len_spec(),
    {
        self.capacity
    }

    /// Grow the database buffer to hold `required` records, keeping the
    /// records in use.
    fn ensure_capacity(&mut self, required: usize)
        requires
            old(self).wf(),
            required * 2 * RECORD_BYTES <= usize::MAX,
        ensures
            final(self).wf(),
            final(self).capacity_spec() == grown_capacity(old(self).capacity_spec(), required as nat),
            final(self).capacity_spec() >= required,
            final(self).len_spec() == old(self).len_spec(),
            final(self).records() == old(self).records(),
            final(self).query_bytes() == old(self).query_bytes(),
    {
        proof {
            lemma_grown_capacity(self.capacity_spec(), required as nat);
        }
        if required > self.capacity {
            let p = next_power_of_two(required);
            let new_cap = if p < 16 { 16 } else { p };
            let mut db: Vec<u8> = Vec::new();
            db.resize(new_cap * RECORD_BYTES, 0u8);
            copy_into(&mut db, 0, self.db.as_slice());
            let ghost old_records = self.records();
            let query = self.query.clone();
            *self = BlackboardSweep { query, db, capacity: new_cap, len: self.len };
            proof {
                assert forall|i: int| 0 <= i < self.len implies #[trigger] self.records()[i] == old_records[i] by {
                    assert(self.records()[i] =~= old_records[i]);
                }
                assert(self.records() =~= old_records);
            }
        }
    }

    /// Load a record into the query buffer.
    pub fn set_query_8k(&mut self, record: &CogRecord8K)
        requires
            old(self).wf(),
        ensures
            final(self).wf(),
            final(self).query_bytes() == record.byte_seq(),
            final(self).records() == old(self).records(),
            final(self).capacity_spec() == old(self).capacity_spec(),
    {
        let bytes = record.as_bytes();
        let ghost old_records = self.records();
        copy_into(&mut self.query, 0, bytes.as_slice());
        assert(self.query@ =~= record.byte_seq());
        assert(self.records() =~= old_records);
    }

    /// Load a flat record into the query buffer.
    pub fn set_query(&mut self, record: &CogRecord)
        requires
            old(self).wf(),
            record.byte_seq().len() == RECORD_BYTES,
        ensures
            final(self).wf(),
            final(self).query_bytes() == record.byte_seq(),
            final(self).records() == old(self).records(),
            final(self).capacity_spec() == old(self).capacity_spec(),
    {
        let bytes = record.to_bytes();
        let ghost old_records = self.records();
        copy_into(&mut self.query, 0, bytes.as_slice());
        assert(self.query@ =~= record.byte_seq());
        assert(self.records() =~= old_records);
    }

    /// Append a record's 8192 bytes to the database.
    fn push_bytes(&mut self, bytes: &[u8])
        requires
            old(self).wf(),
            bytes@.len() == RECORD_BYTES,
            (old(self).len_spec() + 1) * 2 * RECORD_BYTES <= usize::MAX,
        ensures
            final(self).wf(),
            final(self).records() == old(self).records().push(bytes@),
            final(self).capacity_spec() == grown_capacity(old(self).capacity_spec(), old(self).len_spec() + 1),
            final(self).query_bytes() == old(self).query_bytes(),
    {
        self.ensure_capacity(self.len + 1);
        let ghost old_records = self.records();
        let offset = self.len * RECORD_BYTES;
        copy_into(&mut self.db, offset, bytes);
        self.len = self.len + 1;
        proof {
            assert forall|i: int| 0 <= i < self.len implies #[trigger] self.records()[i]
                == old_records.push(bytes@)[i] by {
                assert(self.records()[i] =~= old_records.push(bytes@)[i]);
            }
            assert(self.records() =~= old_records.push(bytes@));
        }
    }

    /// Push a record into the database, growing the buffer if needed.
    pub fn push_8k(&mut self, record: &CogRecord8K)
        requires
            old(self).wf(),
            (old(self).len_spec() + 1) * 2 * RECORD_BYTES <= usize::MAX,
        ensures
            final(self).wf(),
            final(self).records() == old(self).records().push(record.byte_seq()),
            final(self).capacity_spec() == grown_capacity(old(self).capacity_spec(), old(self).len_spec() + 1),
            final(self).query_bytes() == old(self).query_bytes(),
    {
        let bytes = record.as_bytes();
        self.push_bytes(bytes.as_slice());
    }

    /// Push a flat record into the database, growing the buffer if needed.
    pub fn push(&mut self, record: &CogRecord)
        requires
            old(self).wf(),
            record.byte_seq().len() == RECORD_BYTES,
            (old(self).len_spec() + 1) * 2 * RECORD_BYTES <= usize::MAX,
        ensures
            final(self).wf(),
            final(self).records() == old(self).records().push(record.byte_seq()),
            final(self).capacity_spec() == grown_capacity(old(self).capacity_spec(), old(self).len_spec() + 1),
            final(self).query_bytes() == old(self).query_bytes(),
    {
        let bytes = record.to_bytes();
        self.push_bytes(bytes.as_slice());
    }

    /// Replace the database with `records`.
    pub fn load_8k(&mut self, records: &[CogRecord8K])
        requires
            old(self).wf(),
            records@.len() * 2 * RECORD_BYTES <= usize::MAX,
        ensures
            final(self).wf(),
            final(self).records() == records@.map_values(|r: CogRecord8K| r.byte_seq()),
            final(self).capacity_spec() == grown_capacity(old(self).capacity_spec(), records@.len()),
            final(self).query_bytes() == old(self).query_bytes(),
    {
        let n = records.len();
        self.ensure_capacity_for_load(n);
        let ghost cap = self.capacity_spec();
        for i in 0..n
            invariant
                n == records@.len(),
                self.wf(),
                self.len_spec() == i,
                self.capacity_spec() == cap,
                cap >= n,
                self.query_bytes() == old(self).query_bytes(),
                self.records() == records@.map_values(|r: CogRecord8K| r.byte_seq()).take(i as int),
        {
            self.set_record(i, records[i].as_bytes().as_slice());
            proof {
                assert(records@.map_values(|r: CogRecord8K| r.byte_seq()).take(i + 1)
                    =~= records@.map_values(|r: CogRecord8K| r.byte_seq()).take(i as int).push(records@[i as int].byte_seq()));
            }
        }
        assert(records@.map_values(|r: CogRecord8K| r.byte_seq()).take(n as int)
            =~= records@.map_values(|r: CogRecord8K| r.byte_seq()));
    }

    /// Replace the database with the flat `records`.
    pub fn load(&mut self, records: &[CogRecord])
        requires
            old(self).wf(),
            records@.len() * 2 * RECORD_BYTES <= usize::MAX,
            forall|i: int| 0 <= i < records@.len() ==> (#[trigger] records@[i]).byte_seq().len() == RECORD_BYTES,
        ensures
            final(self).wf(),
            final(self).records() == records@.map_values(|r: CogRecord| r.byte_seq()),
            final(self).capacity_spec() == grown_capacity(old(self).capacity_spec(), records@.len()),
            final(self).query_bytes() == old(self).query_bytes(),
    {
        let n = records.len();
        self.ensure_capacity_for_load(n);
        let ghost cap = self.capacity_spec();
        for i in 0..n
            invariant
                n == records@.len(),
                forall|j: int| 0 <= j < records@.len() ==> (#[trigger] records@[j]).byte_seq().len() == RECORD_BYTES,
                self.wf(),
                self.len_spec() == i,
                self.capacity_spec() == cap,
                cap >= n,
                self.query_bytes() == old(self).query_bytes(),
                self.records() == records@.map_values(|r: CogRecord| r.byte_seq()).take(i as int),
        {
            self.set_record(i, records[i].to_bytes().as_slice());
            proof {
                assert(records@.map_values(|r: CogRecord| r.byte_seq()).take(i + 1)
                    =~= records@.map_values(|r: CogRecord| r.byte_seq()).take(i as int).push(records@[i as int].byte_seq()));
            }
        }
        assert(records@.map_values(|r: CogRecord| r.byte_seq()).take(n as int)
            =~= records@.map_values(|r: CogRecord| r.byte_seq()));
    }

    /// Grow for `n` records and empty the database (the buffer keeps its
    /// bytes; only the count of records in use is reset).
    fn ensure_capacity_for_load(&mut self, n: usize)
        requires
            old(self).wf(),
            n * 2 * RECORD_BYTES <= usize::MAX,
        ensures
            final(self).wf(),
            final(self).capacity_spec() == grown_capacity(old(self).capacity_spec(), n as nat),
            final(self).capacity_spec() >= n,
            final(self).len_spec() == 0,
            final(self).query_bytes() == old(self).query_bytes(),
            final(self).records() == Seq::<Seq<u8>>::empty(),
    {
        proof {
            lemma_grown_capacity(old(self).capacity_spec(), n as nat);
        }
        self.ensure_capacity(n);
        self.len = 0;
        assert(self.records() =~= Seq::<Seq<u8>>::empty());
    }

    /// Write record `i` (the next one) and count it.
    fn set_record(&mut self, i: usize, bytes: &[u8])
        requires
            old(self).wf(),
            bytes@.len() == RECORD_BYTES,
            i == old(self).len_spec(),
            i < old(self).capacity_spec(),
        ensures
            final(self).wf(),
            final(self).records() == old(self).records().push(bytes@),
            final(self).capacity_spec() == old(self).capacity_spec(),
            final(self).query_bytes() == old(self).query_bytes(),
    {
        let ghost old_records = self.records();
        let offset = i * RECORD_BYTES;
        copy_into(&mut self.db, offset, bytes);
        self.len = self.len + 1;
        proof {
            assert forall|k: int| 0 <= k < self.len implies #[trigger] self.records()[k]
                == old_records.push(bytes@)[k] by {
                assert(self.records()[k] =~= old_records.push(bytes@)[k]);
            }
            assert(self.records() =~= old_records.push(bytes@));
        }
    }

    /// Four-channel cascade sweep with per-channel thresholds: the records
    /// within every channel threshold of the query, in database order, with
    /// their four channel distances.  A record is rejected on the first
    /// channel whose distance exceeds its threshold.
    pub fn sweep(&self, thresholds: [u64; 4]) -> (r: Vec<RecordMatch>)
        requires
            self.wf(),
        ensures
            r@ == record_hits(self.query_bytes(), self.records(), thresholds, self.records().len() as int),
    {
        let q = self.query.as_slice();
        let db = self.db.as_slice();
        let mut out: Vec<RecordMatch> = Vec::new();
        let n = self.len;
        for i in 0..n
            invariant
                self.wf(),
                n == self.len_spec(),
                n == self.records().len(),
                n <= self.capacity_spec(),
                q@ == self.query_bytes(),
                q@.len() == RECORD_BYTES,
                db@.len() == self.capacity_spec() * RECORD_BYTES,
                forall|k: int| 0 <= k < n ==> #[trigger] self.records()[k] == db@.subrange(8192 * k, 8192 * k + 8192),
                out@ == record_hits(q@, self.records(), thresholds, i as int),
        {
            let base = i * RECORD_BYTES;
            let ghost rec = self.records()[i as int];
            proof {
                assert(rec == db@.subrange(8192 * i, 8192 * i + 8192));
                assert forall|c: int| 0 <= c < 4 implies channel_distance(q@, 2048 * c, db@, 8192 * i + 2048 * c)
                    == #[trigger] record_distance(q@, rec, c) by {
                    assert(db@.subrange(8192 * i + 2048 * c, 8192 * i + 2048 * c + 2048)
                        =~= rec.subrange(2048 * c, 2048 * c + 2048));
                }
            }
            let d0 = channel_hamming(q, 0, db, base);
            assert(d0 == record_distance(q@, rec, 0));
            if d0 <= thresholds[0] {
                let d1 = channel_hamming(q, 2048, db, base + 2048);
                assert(d1 == record_distance(q@, rec, 1));
                if d1 <= thresholds[1] {
                    let d2 = channel_hamming(q, 4096, db, base + 4096);
                    assert(d2 == record_distance(q@, rec, 2));
                    if d2 <= thresholds[2] {
                        let d3 = channel_hamming(q, 6144, db, base + 6144);
                        assert(d3 == record_distance(q@, rec, 3));
                        if d3 <= thresholds[3] {
                            out.push(RecordMatch { index: i, distances: [d0, d1, d2, d3] });
                        }
                    }
                }
            }
        }
        out
    }

    /// Flat form of a `CogRecord8K` (the index slot maps to the btree channel).
    pub fn record8k_to_cogrecord(record: &CogRecord8K) -> (r: CogRecord)
        ensures
            flat_of(*record, r),
            channels_wf(r),
    {
        record8k_to_cogrecord(record)
    }

    /// `CogRecord8K` read back from a flat record.
    pub fn cogrecord_to_record8k(record: &CogRecord) -> (r: CogRecord8K)
        requires
            channels_wf(*record),
        ensures
            unflat_of(*record, r),
    {
        cogrecord_to_record8k(record)
    }

    /// Empty the database (the buffer is kept).
    pub fn clear(&mut self)
        requires
            old(self).wf(),
        ensures
            final(self).wf(),
            final(self).records() == Seq::<Seq<u8>>::empty(),
            final(self).capacity_spec() == old(self).capacity_spec(),
            final(self).query_bytes() == old(self).query_bytes(),
    {
        self.len = 0;
        assert(self.records() =~= Seq::<Seq<u8>>::empty());
    }
}

/// Growing the blackboard never shrinks it and always makes room for the
/// records required.
pub proof fn lemma_grown_capacity(capacity: nat, n: nat)
    ensures
        grown_capacity(capacity, n) >= n,
        grown_capacity(capacity, n) >= capacity,
{
    lemma_pow2_at_least_from(1, n);
}

} // verus!
