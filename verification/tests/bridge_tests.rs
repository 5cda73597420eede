use vsaclip::cogrecord8k::CogRecord8K;
use vsaclip::hybrid_recognition::{embed_into_cam, embed_into_embed, extract_from_cam, pack_database, JinaEmbedding};
use vsaclip::simd_bridge::{
    array_to_wide, arrays_to_record8k, best_int8_match, record8k_to_array, simd_bundle, simd_hamming, simd_hamming_batch,
    simd_int8_dot, simd_make_edge, simd_permute, simd_popcount, simd_recover_target, simd_xor, wide_to_array,
};
use vsaclip::wide_container::WideContainer;
use vsaclip::WIDE_BYTES;

fn bytes_of(seed: u64) -> Vec<u8> {
    WideContainer::random(seed).as_bytes().to_vec()
}

#[test]
fn test_wide_to_array_roundtrip() {
    let c = WideContainer::random(42);
    let arr = wide_to_array(&c);
    let back = array_to_wide(&arr);
    assert_eq!(c, back);
}

#[test]
fn test_simd_hamming_matches_native() {
    let a = WideContainer::random(1);
    let b = WideContainer::random(2);
    let native = a.hamming(&b);
    let simd = simd_hamming(&a, &b);
    assert_eq!(native as u64, simd);
}

#[test]
fn test_simd_popcount_matches_native() {
    let c = WideContainer::random(42);
    let native = c.popcount();
    let simd = simd_popcount(&c);
    assert_eq!(native as u64, simd);
}

#[test]
fn test_simd_xor_matches_native() {
    let a = WideContainer::random(1);
    let b = WideContainer::random(2);
    let native = a.xor(&b);
    let simd = simd_xor(&a, &b);
    assert_eq!(native, simd);
}

#[test]
fn test_simd_int8_dot() {
    // The first 100 bytes hold the int8 values 0..100; the rest are zero.
    let vals: Vec<i8> = (0..100).map(|i| (i % 127) as i8).collect();
    let mut bytes = [0u8; WIDE_BYTES];
    for (i, v) in vals.iter().enumerate() {
        bytes[i] = *v as u8;
    }
    let a = WideContainer::from_bytes(&bytes);
    let b = WideContainer::from_bytes(&bytes);
    let dot = simd_int8_dot(&a, &b);
    let expected: i64 = vals.iter().map(|&v| v as i64 * v as i64).sum();
    assert_eq!(dot, expected);
}

#[test]
fn int8_dot_reads_signed_bytes() {
    let mut x = [0u8; WIDE_BYTES];
    let mut y = [0u8; WIDE_BYTES];
    x[0] = 0xFF; // -1
    y[0] = 0x80; // -128
    x[2047] = 127;
    y[2047] = 0x81; // -127
    let dot = simd_int8_dot(&WideContainer::from_bytes(&x), &WideContainer::from_bytes(&y));
    assert_eq!(dot, 128 - 127 * 127);
}

#[test]
fn test_simd_edge_roundtrip() {
    let src = WideContainer::random(10);
    let rel = WideContainer::random(20);
    let tgt = WideContainer::random(30);

    let edge = simd_make_edge(&src, &rel, &tgt);
    let recovered = simd_recover_target(&edge, &src, &rel);
    assert_eq!(recovered, tgt);
}

#[test]
fn test_simd_bundle() {
    let a = WideContainer::random(1);
    let b = WideContainer::random(2);
    let c = WideContainer::random(3);
    let bundled = simd_bundle(&[&a, &b, &c]);
    // Bundle should be closer to inputs than to random
    let random = WideContainer::random(999);
    let d_a = bundled.hamming(&a);
    let d_rand = bundled.hamming(&random);
    assert!(d_a < d_rand, "bundle should be closer to input a");
}

#[test]
fn test_simd_hamming_batch() {
    let query = WideContainer::random(42);
    let corpus: Vec<WideContainer> = (0..10).map(|i| WideContainer::random(i + 100)).collect();

    let batch_results = simd_hamming_batch(&query, &corpus);
    assert_eq!(batch_results.len(), 10);

    // Verify each matches individual computation
    for (i, c) in corpus.iter().enumerate() {
        let individual = simd_hamming(&query, c);
        assert_eq!(batch_results[i], individual, "mismatch at index {}", i);
    }
    assert!(simd_hamming_batch(&query, &[]).is_empty());
}

#[test]
fn test_record8k_roundtrip() {
    let mut r = CogRecord8K::new();
    r.cam = WideContainer::random(1);
    r.meta = WideContainer::random(2);
    r.index = WideContainer::random(3);
    r.embed = WideContainer::random(4);

    let arr = record8k_to_array(&r);
    assert_eq!(arr.len(), 8192);

    // Reconstruct from individual arrays
    let meta_arr = wide_to_array(&r.meta);
    let cam_arr = wide_to_array(&r.cam);
    let idx_arr = wide_to_array(&r.index);
    let emb_arr = wide_to_array(&r.embed);
    let r2 = arrays_to_record8k(&meta_arr, &cam_arr, &idx_arr, &emb_arr);
    assert_eq!(r.cam, r2.cam);
    assert_eq!(r.meta, r2.meta);
    assert_eq!(r.index, r2.index);
    assert_eq!(r.embed, r2.embed);
}

#[test]
fn byte_layout_is_little_endian_words() {
    let mut c = WideContainer::zero();
    c.words[0] = 0x0102030405060708;
    c.words[255] = 0xAA00000000000000;
    let b = wide_to_array(&c);
    assert_eq!(&b[0..8], &[8, 7, 6, 5, 4, 3, 2, 1]);
    assert_eq!(b[2047], 0xAA);
    let mut r = CogRecord8K::new();
    r.cam = c;
    let all = r.as_bytes();
    assert_eq!(&all[2048..2056], &[8, 7, 6, 5, 4, 3, 2, 1]);
    assert!(all[0..2048].iter().all(|&x| x == 0));
}

#[test]
fn permute_is_a_rotation() {
    let mut c = WideContainer::zero();
    c.words[255] = 1u64 << 63;
    let r = simd_permute(&c, 1);
    assert_eq!(r.words[0], 1);
    let x = WideContainer::random(8);
    assert_eq!(simd_permute(&simd_permute(&x, 2), 16382), x);
}

#[test]
fn test_embed_into_cogrecord8k() {
    let jina = JinaEmbedding::from_bf16_bytes(bytes_of(42));
    let mut record = CogRecord8K::new();

    embed_into_cam(&mut record, &jina);
    let extracted = extract_from_cam(&record);
    assert_eq!(jina.bf16_bytes, extracted.bf16_bytes);
}

#[test]
fn jina_wide_container_roundtrip() {
    let jina = JinaEmbedding::from_bf16_bytes(bytes_of(42));
    let wc = jina.to_wide_container();
    let back = JinaEmbedding::from_wide_container(&wc);
    assert_eq!(jina.bf16_bytes, back.bf16_bytes);
}

#[test]
fn jina_self_distance_zero_and_matches_wide() {
    let a = JinaEmbedding::from_bf16_bytes(bytes_of(1));
    let b = JinaEmbedding::from_bf16_bytes(bytes_of(2));
    assert_eq!(a.hamming_distance(&a), 0);
    assert_eq!(a.hamming_distance(&b), b.hamming_distance(&a));
    assert_eq!(a.hamming_distance(&b), a.to_wide_container().hamming(&b.to_wide_container()));
    // One flipped bit in the last byte.
    let mut bytes = a.bf16_bytes.clone();
    bytes[2047] ^= 0x10;
    let c = JinaEmbedding::from_bf16_bytes(bytes);
    assert_eq!(a.hamming_distance(&c), 1);
}

#[test]
fn embed_slot_leaves_others() {
    let jina = JinaEmbedding::from_bf16_bytes(bytes_of(5));
    let mut record = CogRecord8K::new();
    record.meta = WideContainer::random(6);
    embed_into_embed(&mut record, &jina);
    assert_eq!(record.embed, jina.to_wide_container());
    assert_eq!(record.meta, WideContainer::random(6));
    assert_eq!(record.cam, WideContainer::zero());
}

#[test]
fn pack_database_concatenates() {
    let embeddings: Vec<JinaEmbedding> = (0..5).map(|i| JinaEmbedding::from_bf16_bytes(bytes_of(i))).collect();
    let packed = pack_database(&embeddings);
    assert_eq!(packed.len(), 5 * 2048);
    assert_eq!(&packed[2048..4096], embeddings[1].bf16_bytes.as_slice());
}

fn int8_wide(values: &[i8]) -> WideContainer {
    let mut bytes = [0u8; 2048];
    for (b, v) in bytes.iter_mut().zip(values.iter()) {
        *b = *v as u8;
    }
    WideContainer::from_bytes(&bytes)
}

#[test]
fn best_int8_match_finds_planted_duplicate() {
    let query = int8_wide(&[3, -2, 5, 1]);
    let mut records: Vec<CogRecord8K> = Vec::new();
    for k in 0..4i8 {
        let mut r = CogRecord8K::new();
        r.embed = int8_wide(&[k, k, -k, 1]);
        records.push(r);
    }
    // dots: k*3 - 2k - 5k + 1 = 1 - 4k: 1, -3, -7, -11
    assert_eq!(best_int8_match(&query, &records, 4), Some((0, 1)));
    // over the first two dimensions only: k*3 - 2k = k
    assert_eq!(best_int8_match(&query, &records, 2), Some((3, 3)));
    assert_eq!(best_int8_match(&query, &records, 0), Some((0, 0)));
    records[2].embed = int8_wide(&[3, -2, 5, 1]);
    assert_eq!(best_int8_match(&query, &records, 4), Some((2, 39)));
    assert_eq!(best_int8_match(&query, &records, 2), Some((2, 13)));
    records[3].embed = int8_wide(&[3, -2, 5, 1]);
    assert_eq!(best_int8_match(&query, &records, 2048), Some((2, 39)));
    assert_eq!(best_int8_match(&query, &[], 4), None);
}

fn make_embedding(seed: u32) -> Vec<f32> {
    (0..1024).map(|i| ((i as f32 + seed as f32) * 0.01).sin()).collect()
}

/// BF16 bytes of a float embedding: the upper half of each f32, little-endian.
fn bf16_of(embedding: &[f32]) -> JinaEmbedding {
    let mut bytes = Vec::with_capacity(2 * embedding.len());
    for x in embedding {
        bytes.extend_from_slice(&((x.to_bits() >> 16) as u16).to_le_bytes());
    }
    JinaEmbedding::from_bf16_bytes(bytes)
}

#[test]
fn test_jina_embedding_self_distance_zero() {
    let jina = bf16_of(&make_embedding(42));
    assert_eq!(jina.hamming_distance(&jina), 0);
}

#[test]
fn test_jina_embedding_similar_close() {
    let emb_a = make_embedding(42);
    let mut emb_b = emb_a.clone();
    for i in 0..10 {
        emb_b[i] += 0.001;
    }
    let a = bf16_of(&emb_a);
    let b = bf16_of(&emb_b);
    let hamming = a.hamming_distance(&b);
    assert!(hamming < 1000, "similar embeddings should be close in Hamming: {}", hamming);
}

#[test]
fn test_jina_embedding_different_far() {
    let a = bf16_of(&make_embedding(1));
    let b = bf16_of(&make_embedding(99999));
    let hamming = a.hamming_distance(&b);
    assert!(hamming > 1000, "different embeddings should be far in Hamming: {}", hamming);
}

#[test]
fn test_jina_to_wide_container_roundtrip() {
    let jina = bf16_of(&make_embedding(42));
    let wc = jina.to_wide_container();
    let back = JinaEmbedding::from_wide_container(&wc);
    assert_eq!(jina.bf16_bytes, back.bf16_bytes);
}

#[test]
fn test_pack_database_size() {
    let embeddings: Vec<JinaEmbedding> = (0..5).map(|i| bf16_of(&make_embedding(i))).collect();
    let packed = pack_database(&embeddings);
    assert_eq!(packed.len(), 5 * 2048);
}

#[test]
fn jina_distance_is_per_byte_metric() {
    let a = bf16_of(&make_embedding(3));
    let b = bf16_of(&make_embedding(500));
    let c = bf16_of(&make_embedding(9000));
    let per_byte: u32 = a.bf16_bytes.iter().zip(b.bf16_bytes.iter()).map(|(x, y)| (x ^ y).count_ones()).sum();
    assert_eq!(a.hamming_distance(&b), per_byte);
    assert_eq!(a.hamming_distance(&b), b.hamming_distance(&a));
    assert!(a.hamming_distance(&c) <= a.hamming_distance(&b) + b.hamming_distance(&c));
    assert!(a.hamming_distance(&c) <= 16384);
}
