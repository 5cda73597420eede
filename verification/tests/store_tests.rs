use vsaclip::blackboard_sweep::BlackboardSweep;
use vsaclip::cogrecord8k::CogRecord8K;
use vsaclip::storage::{batch_to_cogrecords, batch_to_record8k, cogrecord_to_record8k, record8k_to_cogrecord, CogRecord};
use vsaclip::wide_container::WideContainer;
use vsaclip::WIDE_BYTES;

fn make_record8k(fill: u8) -> CogRecord8K {
    CogRecord8K {
        meta: WideContainer::from_bytes(&[fill; WIDE_BYTES]),
        cam: WideContainer::from_bytes(&[fill; WIDE_BYTES]),
        index: WideContainer::from_bytes(&[fill; WIDE_BYTES]),
        embed: WideContainer::from_bytes(&[fill; WIDE_BYTES]),
    }
}

fn make_cogrecord(fill: u8) -> CogRecord {
    CogRecord::new(vec![fill; 2048], vec![fill; 2048], vec![fill; 2048], vec![fill; 2048])
}

#[test]
fn test_blackboard_sweep_basic() {
    let mut engine = BlackboardSweep::with_capacity(10);

    // Load query
    engine.set_query_8k(&make_record8k(0xAA));

    // Load database: 5 records, record 0 and 2 match query
    engine.push_8k(&make_record8k(0xAA)); // match
    engine.push_8k(&make_record8k(0x55)); // different
    engine.push_8k(&make_record8k(0xAA)); // match
    engine.push_8k(&make_record8k(0x00)); // different
    engine.push_8k(&make_record8k(0xAA)); // match

    let results = engine.sweep([1000, 1000, 1000, 1000]);
    assert_eq!(results.len(), 3);
    assert_eq!(results[0].index, 0);
    assert_eq!(results[1].index, 2);
    assert_eq!(results[2].index, 4);
}

#[test]
fn test_blackboard_sweep_cogrecord() {
    let mut engine = BlackboardSweep::with_capacity(10);

    engine.set_query(&make_cogrecord(0xAA));
    engine.push(&make_cogrecord(0xAA));
    engine.push(&make_cogrecord(0x55));
    engine.push(&make_cogrecord(0xAA));

    let results = engine.sweep([1000, 1000, 1000, 1000]);
    assert_eq!(results.len(), 2);
    assert_eq!(results[0].index, 0);
    assert_eq!(results[1].index, 2);
}

#[test]
fn test_blackboard_bulk_load() {
    let mut engine = BlackboardSweep::with_capacity(100);

    let records: Vec<CogRecord8K> = (0..50).map(|i| make_record8k(if i % 10 == 0 { 0xAA } else { 0x55 })).collect();

    engine.load_8k(&records);
    engine.set_query_8k(&make_record8k(0xAA));

    let results = engine.sweep([1000, 1000, 1000, 1000]);
    assert_eq!(results.len(), 5); // indices 0, 10, 20, 30, 40
}

#[test]
fn test_blackboard_grow() {
    let mut engine = BlackboardSweep::with_capacity(2);
    assert_eq!(engine.capacity(), 2);

    for _ in 0..10 {
        engine.push(&make_cogrecord(0xBB));
    }

    assert_eq!(engine.len(), 10);
    assert!(engine.capacity() >= 10);

    engine.set_query(&make_cogrecord(0xBB));
    let results = engine.sweep([1000, 1000, 1000, 1000]);
    assert_eq!(results.len(), 10);
}

#[test]
fn blackboard_sweep_test_record8k_cogrecord_roundtrip() {
    let r8k = CogRecord8K {
        meta: WideContainer::random(1),
        cam: WideContainer::random(2),
        index: WideContainer::random(3),
        embed: WideContainer::random(4),
    };

    let cr = BlackboardSweep::record8k_to_cogrecord(&r8k);
    let back = BlackboardSweep::cogrecord_to_record8k(&cr);

    assert_eq!(r8k.meta, back.meta);
    assert_eq!(r8k.cam, back.cam);
    assert_eq!(r8k.index, back.index);
    assert_eq!(r8k.embed, back.embed);
}

#[test]
fn test_blackboard_clear() {
    let mut engine = BlackboardSweep::with_capacity(10);
    engine.push(&make_cogrecord(0xAA));
    engine.push(&make_cogrecord(0xAA));
    assert_eq!(engine.len(), 2);

    engine.clear();
    assert_eq!(engine.len(), 0);
    assert!(engine.is_empty());
}

#[test]
fn test_blackboard_sweep_early_exit() {
    let mut engine = BlackboardSweep::with_capacity(10);

    // Query: all zeros
    engine.set_query(&make_cogrecord(0x00));

    // Database: all 0xFF (max Hamming distance)
    for _ in 0..5 {
        engine.push(&make_cogrecord(0xFF));
    }

    // Tight thresholds → all rejected at META stage
    let results = engine.sweep([100, 100, 100, 100]);
    assert_eq!(results.len(), 0);
}

#[test]
fn blackboard_growth_policy_and_distances() {
    let mut engine = BlackboardSweep::with_capacity(0);
    assert!(engine.is_empty());
    engine.push_8k(&make_record8k(0x0F));
    // Growth goes to the next power of two, at least 16.
    assert_eq!(engine.capacity(), 16);
    for _ in 0..16 {
        engine.push_8k(&make_record8k(0x0F));
    }
    assert_eq!(engine.len(), 17);
    assert_eq!(engine.capacity(), 32);
    let mut q = make_record8k(0x0F);
    q.embed = WideContainer::from_bytes(&[0x0E; WIDE_BYTES]);
    engine.set_query_8k(&q);
    // Channel 3 differs by one bit per byte: 2048.
    let hits = engine.sweep([0, 0, 0, 2048]);
    assert_eq!(hits.len(), 17);
    assert_eq!(hits[0].distances, [0, 0, 0, 2048]);
    assert!(engine.sweep([0, 0, 0, 2047]).is_empty());
    // Loading fewer records keeps the capacity.
    engine.load_8k(&[make_record8k(1)]);
    assert_eq!(engine.len(), 1);
    assert_eq!(engine.capacity(), 32);
}

#[test]
fn storage_test_record8k_cogrecord_roundtrip() {
    let r8k = CogRecord8K {
        meta: WideContainer::random(10),
        cam: WideContainer::random(20),
        index: WideContainer::random(30),
        embed: WideContainer::random(40),
    };

    let cr = record8k_to_cogrecord(&r8k);
    let back = cogrecord_to_record8k(&cr);

    assert_eq!(r8k.meta, back.meta);
    assert_eq!(r8k.cam, back.cam);
    assert_eq!(r8k.index, back.index);
    assert_eq!(r8k.embed, back.embed);
}

#[test]
fn test_batch_conversion() {
    let records: Vec<CogRecord8K> = (0..10).map(|i| make_record8k(i as u8)).collect();

    let cogrecords = batch_to_cogrecords(&records);
    assert_eq!(cogrecords.len(), 10);

    let back = batch_to_record8k(&cogrecords);
    assert_eq!(back.len(), 10);

    for (orig, round) in records.iter().zip(back.iter()) {
        assert_eq!(orig.meta, round.meta);
        assert_eq!(orig.cam, round.cam);
        assert_eq!(orig.index, round.index);
        assert_eq!(orig.embed, round.embed);
    }
}

#[test]
fn test_cogrecord_container_sizes() {
    let r8k = make_record8k(0xAA);
    let cr = record8k_to_cogrecord(&r8k);

    assert_eq!(cr.meta.len(), 2048);
    assert_eq!(cr.cam.len(), 2048);
    assert_eq!(cr.btree.len(), 2048);
    assert_eq!(cr.embed.len(), 2048);
    assert_eq!(cr.to_bytes().len(), 8192);
    assert_eq!(cr.to_bytes(), r8k.as_bytes());
}
