//! Little-endian byte layout of 64-bit words.
//!
//! A container's bytes are its words laid out least significant byte first,
//! word after word; the same bytes read back give the same words.
use vstd::prelude::*;

verus! {

/// Byte `k` (0 = least significant) of `x`.
pub open spec fn le_byte(x: u64, k: int) -> u8 {
    if k == 0 {
        (x & 0xffu64) as u8
    } else if k == 1 {
        ((x >> 8u64) & 0xffu64) as u8
    } else if k == 2 {
        ((x >> 16u64) & 0xffu64) as u8
    } else if k == 3 {
        ((x >> 24u64) & 0xffu64) as u8
    } else if k == 4 {
        ((x >> 32u64) & 0xffu64) as u8
    } else if k == 5 {
        ((x >> 40u64) & 0xffu64) as u8
    } else if k == 6 {
        ((x >> 48u64) & 0xffu64) as u8
    } else {
        ((x >> 56u64) & 0xffu64) as u8
    }
}

/// The word whose little-endian bytes are `b[off..off + 8]`.
pub open spec fn le_word(b: Seq<u8>, off: int) -> u64 {
    (b[off] as u64) | ((b[off + 1] as u64) << 8u64) | ((b[off + 2] as u64) << 16u64) | ((b[off
        + 3] as u64) << 24u64) | ((b[off + 4] as u64) << 32u64) | ((b[off + 5] as u64) << 40u64)
        | ((b[off + 6] as u64) << 48u64) | ((b[off + 7] as u64) << 56u64)
}

/// Little-endian bytes of a word sequence, word after word.
pub open spec fn words_to_bytes(ws: Seq<u64>) -> Seq<u8> {
    Seq::new(8 * ws.len(), |i: int| le_byte(ws[i / 8], i % 8))
}

/// The `n` words read little-endian from the first `8 * n` bytes of `b`.
pub open spec fn bytes_to_words(b: Seq<u8>, n: nat) -> Seq<u64> {
    Seq::new(n, |i: int| le_word(b, 8 * i))
}

/// Reading back the bytes of a word gives the word.
pub proof fn lemma_word_roundtrip(x: u64)
    ensures
        le_word(seq![le_byte(x, 0), le_byte(x, 1), le_byte(x, 2), le_byte(x, 3), le_byte(x, 4),
            le_byte(x, 5), le_byte(x, 6), le_byte(x, 7)], 0) == x,
{
    let s = seq![le_byte(x, 0), le_byte(x, 1), le_byte(x, 2), le_byte(x, 3), le_byte(x, 4),
        le_byte(x, 5), le_byte(x, 6), le_byte(x, 7)];
    assert(s[0] == le_byte(x, 0) && s[1] == le_byte(x, 1) && s[2] == le_byte(x, 2) && s[3]
        == le_byte(x, 3) && s[4] == le_byte(x, 4) && s[5] == le_byte(x, 5) && s[6] == le_byte(x, 6)
        && s[7] == le_byte(x, 7));
    assert(((x & 0xffu64) as u8 as u64) | ((((x >> 8u64) & 0xffu64) as u8 as u64) << 8u64) | ((((x
        >> 16u64) & 0xffu64) as u8 as u64) << 16u64) | ((((x >> 24u64) & 0xffu64) as u8 as u64)
        << 24u64) | ((((x >> 32u64) & 0xffu64) as u8 as u64) << 32u64) | ((((x >> 40u64) & 0xffu64)
        as u8 as u64) << 40u64) | ((((x >> 48u64) & 0xffu64) as u8 as u64) << 48u64) | ((((x
        >> 56u64) & 0xffu64) as u8 as u64) << 56u64) == x) by (bit_vector);
}

/// The bytes of a word read from bytes are those bytes.
pub proof fn lemma_bytes_roundtrip(b: Seq<u8>, off: int)
    requires
        0 <= off,
        off + 8 <= b.len(),
    ensures
        forall|k: int| 0 <= k < 8 ==> #[trigger] le_byte(le_word(b, off), k) == b[off + k],
{
    let b0 = b[off];
    let b1 = b[off + 1];
    let b2 = b[off + 2];
    let b3 = b[off + 3];
    let b4 = b[off + 4];
    let b5 = b[off + 5];
    let b6 = b[off + 6];
    let b7 = b[off + 7];
    let x = le_word(b, off);
    assert(x == (b0 as u64) | ((b1 as u64) << 8u64) | ((b2 as u64) << 16u64) | ((b3 as u64)
        << 24u64) | ((b4 as u64) << 32u64) | ((b5 as u64) << 40u64) | ((b6 as u64) << 48u64) | ((
    b7 as u64) << 56u64));
    assert((x & 0xffu64) as u8 == b0 && ((x >> 8u64) & 0xffu64) as u8 == b1 && ((x >> 16u64)
        & 0xffu64) as u8 == b2 && ((x >> 24u64) & 0xffu64) as u8 == b3 && ((x >> 32u64) & 0xffu64)
        as u8 == b4 && ((x >> 40u64) & 0xffu64) as u8 == b5 && ((x >> 48u64) & 0xffu64) as u8 == b6
        && ((x >> 56u64) & 0xffu64) as u8 == b7) by (bit_vector)
        requires
            x == (b0 as u64) | ((b1 as u64) << 8u64) | ((b2 as u64) << 16u64) | ((b3 as u64)
                << 24u64) | ((b4 as u64) << 32u64) | ((b5 as u64) << 40u64) | ((b6 as u64) << 48u64)
                | ((b7 as u64) << 56u64),
    ;
}

/// Words written as bytes and read back are unchanged.
pub proof fn lemma_words_bytes_words(ws: Seq<u64>)
    ensures
        bytes_to_words(words_to_bytes(ws), ws.len()) == ws,
{
    let b = words_to_bytes(ws);
    assert forall|i: int| 0 <= i < ws.len() implies #[trigger] bytes_to_words(b, ws.len())[i] == ws[i] by {
        let x = ws[i];
        lemma_word_roundtrip(x);
        assert forall|k: int| 0 <= k < 8 implies b[8 * i + k] == le_byte(x, k) by {
            assert((8 * i + k) / 8 == i);
            assert((8 * i + k) % 8 == k);
        }
        let s = seq![le_byte(x, 0), le_byte(x, 1), le_byte(x, 2), le_byte(x, 3), le_byte(x, 4),
            le_byte(x, 5), le_byte(x, 6), le_byte(x, 7)];
        assert(le_word(b, 8 * i) == le_word(s, 0));
    }
    assert(bytes_to_words(b, ws.len()) =~= ws);
}

/// Bytes read as words and written back are unchanged.
pub proof fn lemma_bytes_words_bytes(b: Seq<u8>, n: nat)
    requires
        b.len() == 8 * n,
    ensures
        words_to_bytes(bytes_to_words(b, n)) == b,
{
    let ws = bytes_to_words(b, n);
    assert forall|i: int| 0 <= i < b.len() implies #[trigger] words_to_bytes(ws)[i] == b[i] by {
        let w = i / 8;
        let k = i % 8;
        assert(0 <= w < n);
        assert(8 * w + k == i);
        lemma_bytes_roundtrip(b, 8 * w);
        assert(le_byte(le_word(b, 8 * w), k) == b[8 * w + k]);
    }
    assert(words_to_bytes(ws) =~= b);
}

/// Read the little-endian word at `b[off..off + 8]`.
pub fn read_word_le(b: &[u8], off: usize) -> (r: u64)
    requires
        off + 8 <= b@.len(),
    ensures
        r == le_word(b@, off as int),
{
    (b[off] as u64) | ((b[off + 1] as u64) << 8u64) | ((b[off + 2] as u64) << 16u64) | ((b[off
        + 3] as u64) << 24u64) | ((b[off + 4] as u64) << 32u64) | ((b[off + 5] as u64) << 40u64)
        | ((b[off + 6] as u64) << 48u64) | ((b[off + 7] as u64) << 56u64)
}

/// Append the eight little-endian bytes of `x`.
pub fn push_word_le(out: &mut Vec<u8>, x: u64)
    ensures
        final(out)@ == old(out)@ + seq![le_byte(x, 0), le_byte(x, 1), le_byte(x, 2), le_byte(x, 3),
            le_byte(x, 4), le_byte(x, 5), le_byte(x, 6), le_byte(x, 7)],
{
    out.push((x & 0xffu64) as u8);
    out.push(((x >> 8u64) & 0xffu64) as u8);
    out.push(((x >> 16u64) & 0xffu64) as u8);
    out.push(((x >> 24u64) & 0xffu64) as u8);
    out.push(((x >> 32u64) & 0xffu64) as u8);
    out.push(((x >> 40u64) & 0xffu64) as u8);
    out.push(((x >> 48u64) & 0xffu64) as u8);
    out.push(((x >> 56u64) & 0xffu64) as u8);
    assert(final(out)@ =~= old(out)@ + seq![le_byte(x, 0), le_byte(x, 1), le_byte(x, 2), le_byte(x, 3),
            le_byte(x, 4), le_byte(x, 5), le_byte(x, 6), le_byte(x, 7)]);
}

/// Append the little-endian bytes of every word of `ws`.
pub fn push_words_le(out: &mut Vec<u8>, ws: &[u64])
    ensures
        final(out)@ == old(out)@ + words_to_bytes(ws@),
{
    let ghost start = out@;
    for i in 0..ws.len()
        invariant
            start == old(out)@,
            out@ == start + words_to_bytes(ws@.take(i as int)),
    {
        let ghost before = out@;
        push_word_le(out, ws[i]);
        proof {
            let x = ws@[i as int];
            let t0 = ws@.take(i as int);
            let t1 = ws@.take(i as int + 1);
            assert forall|j: int| 0 <= j < 8 * t1.len() implies #[trigger] words_to_bytes(t1)[j]
                == (words_to_bytes(t0) + seq![le_byte(x, 0), le_byte(x, 1), le_byte(x, 2), le_byte(x, 3),
                le_byte(x, 4), le_byte(x, 5), le_byte(x, 6), le_byte(x, 7)])[j] by {
                if j < 8 * t0.len() {
                } else {
                    assert(j / 8 == i);
                }
            }
            assert(words_to_bytes(t1) =~= words_to_bytes(t0) + seq![le_byte(x, 0), le_byte(x, 1), le_byte(x, 2), le_byte(x, 3),
                le_byte(x, 4), le_byte(x, 5), le_byte(x, 6), le_byte(x, 7)]);
            assert(out@ =~= start + words_to_bytes(t1));
        }
    }
    assert(ws@.take(ws@.len() as int) =~= ws@);
}

} // verus!
