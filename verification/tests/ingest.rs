use ztreamer::codec::{encoded_record_len, CodecError, MAX_RECORD_BYTES};
use ztreamer::index::{BlockId, IndexState};
use ztreamer::ingest::{IngestError, OrderedBuilder};
use ztreamer::parser::{CompactSaplingOutput, CompactTransaction, PreparedCompactBlock};

fn prepared(height: u32) -> PreparedCompactBlock {
    PreparedCompactBlock {
        height,
        hash: hash(height),
        previous_hash: height.checked_sub(1).map(hash).unwrap_or([0; 32]),
        time: height,
        header: Vec::new(),
        transactions: Vec::new(),
        sapling_additions: 0,
        orchard_additions: 0,
        ironwood_additions: 0,
    }
}

fn hash(height: u32) -> [u8; 32] {
    let mut hash = [0; 32];
    hash[..4].copy_from_slice(&height.to_be_bytes());
    hash
}

fn tip(height: u32) -> BlockId {
    BlockId::new(height, hash(height))
}

fn builder(budget: usize) -> OrderedBuilder {
    OrderedBuilder::new(IndexState::default(), budget).unwrap()
}

#[test]
fn reassembles_out_of_order_blocks_and_assigns_tree_sizes() {
    let mut first = prepared(0);
    first.transactions.push(CompactTransaction {
        index: 1,
        txid: [7; 32],
        sapling_spends: Vec::new(),
        sapling_outputs: vec![CompactSaplingOutput {
            cmu: [1; 32],
            ephemeral_key: [2; 32],
            ciphertext: [3; 52],
        }],
        orchard_actions: Vec::new(),
        ironwood_actions: Vec::new(),
    });
    first.sapling_additions = 1;
    let mut builder = OrderedBuilder::new(IndexState::default(), 1_000_000).unwrap();

    builder.push(prepared(1)).unwrap();
    assert!(builder
        .build_batch(BlockId::new(11, hash(11)), 1_000_000)
        .unwrap()
        .is_none());
    builder.push(first).unwrap();
    let batch = builder
        .build_batch(BlockId::new(11, hash(11)), 1_000_000)
        .unwrap()
        .unwrap();
    assert_eq!(batch.records().len(), 2);
    assert_eq!(batch.records()[0].height, 0);
    assert_eq!(batch.records()[1].height, 1);
    assert_eq!(batch.records()[1].end_tree_sizes.sapling, 1);
}

#[test]
fn batches_are_cut_one_by_one_in_order() {
    let mut builder = builder(1024 * 1024);
    for height in [2, 0, 1] {
        builder.push(prepared(height)).unwrap();
    }
    let batch_bytes = encoded_record_len(0, &[]).unwrap();
    for (generation, height) in (0..3u32).enumerate() {
        let batch = builder.build_batch(tip(20), batch_bytes).unwrap().unwrap();
        assert_eq!(batch.records().len(), 1);
        assert_eq!(batch.records()[0].height, height);
        assert_eq!(batch.base_generation(), generation as u64);
        assert_eq!(batch.source_tip(), tip(20));
    }
    assert!(builder.build_batch(tip(20), batch_bytes).unwrap().is_none());
    assert_eq!(builder.pending_bytes(), 0);
}

#[test]
fn shallow_blocks_wait() {
    let mut builder = builder(1_000_000);
    for height in 0..5 {
        builder.push(prepared(height)).unwrap();
    }
    assert!(builder.build_batch(tip(9), 1_000_000).unwrap().is_none());
    let batch = builder.build_batch(tip(12), 1_000_000).unwrap().unwrap();
    assert_eq!(batch.records().len(), 3);
    assert_eq!(builder.pending_bytes(), 2 * 93);
}

#[test]
fn order_of_pushes_does_not_matter() {
    let mut forwards = builder(1_000_000);
    let mut backwards = builder(1_000_000);
    for height in 0..6 {
        forwards.push(prepared(height)).unwrap();
        backwards.push(prepared(5 - height)).unwrap();
    }
    let left = forwards.build_batch(tip(30), 1_000_000).unwrap().unwrap();
    let right = backwards.build_batch(tip(30), 1_000_000).unwrap().unwrap();
    assert_eq!(left.records(), right.records());
}

#[test]
fn refused_blocks_leave_the_builder_alone() {
    let mut builder = builder(200);
    builder.push(prepared(1)).unwrap();
    assert_eq!(
        builder.push(prepared(1)),
        Err(IngestError::DuplicateHeight { height: 1 })
    );
    builder.push(prepared(0)).unwrap();
    assert_eq!(
        builder.push(prepared(2)),
        Err(IngestError::PendingBytes { limit: 200 })
    );
    let mut oversized = prepared(3);
    oversized.header = vec![0; MAX_RECORD_BYTES];
    assert_eq!(
        builder.push(oversized),
        Err(IngestError::Codec(CodecError::Length))
    );
    assert_eq!(builder.pending_bytes(), 186);
    let batch = builder.build_batch(tip(30), 1_000).unwrap().unwrap();
    assert_eq!(batch.records().len(), 2);
    assert_eq!(
        builder.push(prepared(1)),
        Err(IngestError::DuplicateHeight { height: 1 })
    );
}

#[test]
fn failing_batches_say_why() {
    let mut small = builder(1_000);
    small.push(prepared(0)).unwrap();
    assert_eq!(
        small.build_batch(tip(30), 92).unwrap_err(),
        IngestError::BatchBytes { limit: 92 }
    );

    let mut unlinked = builder(1_000);
    unlinked.push(prepared(0)).unwrap();
    let mut stranger = prepared(1);
    stranger.previous_hash = [5; 32];
    unlinked.push(stranger).unwrap();
    assert_eq!(
        unlinked.build_batch(tip(30), 1_000).unwrap_err(),
        IngestError::Parent { height: 1 }
    );

    let mut full = builder(1_000);
    let mut first = prepared(0);
    first.orchard_additions = u32::MAX;
    let mut second = prepared(1);
    second.orchard_additions = 1;
    full.push(first).unwrap();
    full.push(second).unwrap();
    assert_eq!(
        full.build_batch(tip(30), 1_000).unwrap_err(),
        IngestError::TreeSize { height: 1 }
    );
}

#[test]
fn every_order_of_pushes_gives_the_same_batch() {
    let orders = [
        [0, 1, 2, 3],
        [3, 2, 1, 0],
        [2, 0, 3, 1],
        [1, 3, 0, 2],
        [0, 2, 1, 3],
    ];
    let mut batches = Vec::new();
    for order in orders {
        let mut builder = builder(4 * 93);
        for height in order {
            builder.push(prepared(height)).unwrap();
        }
        batches.push(builder.build_batch(tip(30), 1_000).unwrap().unwrap());
    }
    for batch in &batches {
        assert_eq!(batch.records(), batches[0].records());
        assert_eq!(batch.records().len(), 4);
    }
}

#[test]
fn ingest_errors_read_as_sentences() {
    let words = [
        (
            IngestError::Codec(CodecError::Length),
            "encoded count, length, or offset is invalid",
        ),
        (
            IngestError::DuplicateHeight { height: 4 },
            "prepared height 4 is stale or duplicated",
        ),
        (
            IngestError::Parent { height: 5 },
            "block 5 does not connect to the previous canonical hash",
        ),
        (
            IngestError::TreeSize { height: 6 },
            "block 6 commitment-tree size overflow",
        ),
        (
            IngestError::PendingBytes { limit: 200 },
            "ordered pending bytes exceed the 200-byte budget",
        ),
        (
            IngestError::BatchBytes { limit: 93 },
            "write batch bytes exceed the 93-byte budget",
        ),
        (
            IngestError::Overflow,
            "height, generation, or byte count overflow",
        ),
    ];
    for (error, words) in words {
        assert_eq!(error.message(), words);
    }
}
