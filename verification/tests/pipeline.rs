use ztreamer::index::{begin_write, finish_write, BlockId, IndexError, IndexState};
use ztreamer::ingest::{IngestError, OrderedBuilder};
use ztreamer::parser::{
    parse_block, CompactParseError, PreparedCompactBlock, RawIndexBlock, RawIndexTransaction,
};
use ztreamer::pipeline::{
    check_probe, first_missing, plan_sync, probe_request, request_bytes, segment_at, take_block,
    validate_config, PipelineConfig, PipelineError, Segment, SourceRange, SourceRequest, SyncPlan,
    MAX_SOURCE_BYTES, MIB,
};

fn hash(height: u32) -> [u8; 32] {
    let mut hash = [0; 32];
    hash[..4].copy_from_slice(&height.to_be_bytes());
    hash
}

fn tip(height: u32) -> BlockId {
    BlockId::new(height, hash(height))
}

fn raw_block(height: u32) -> RawIndexBlock {
    let mut header = vec![0; 140];
    header[4..36].copy_from_slice(&height.checked_sub(1).map(hash).unwrap_or([0; 32]));
    header[100..104].copy_from_slice(&height.to_le_bytes());
    RawIndexBlock {
        height,
        hash: hash(height),
        header,
        transactions: vec![RawIndexTransaction {
            txid: hash(height),
            bytes: vec![1, 0, 0, 0, 0, 0, 0, 0, 0, 0],
        }],
    }
}

fn answer(start: u32, count: u32, source_tip: u32) -> SourceRange {
    SourceRange {
        blocks: (start..start + count).map(raw_block).collect(),
        retained_body_floor: 0,
        source_tip: Some(tip(source_tip)),
    }
}

fn config() -> PipelineConfig {
    PipelineConfig {
        fetch_workers: 4,
        parser_workers: 4,
        source_segment_blocks: 1,
        max_source_bytes: 4 * MIB,
        max_pending_bytes: MIB,
        max_batch_bytes: 300,
    }
}

fn state_at(height: u32) -> IndexState {
    let mut builder = OrderedBuilder::new(IndexState::default(), MIB).unwrap();
    for height in 0..=height {
        builder
            .push(parse_block(&raw_block(height)).unwrap())
            .unwrap();
    }
    let batch = builder.build_batch(tip(height + 10), MIB).unwrap().unwrap();
    let start = begin_write(IndexState::default(), &batch).unwrap();
    finish_write(start.state).unwrap().0
}

#[test]
fn workers_set_the_default_limits() {
    assert_eq!(
        PipelineConfig::for_workers(2),
        PipelineConfig {
            fetch_workers: 2,
            parser_workers: 2,
            source_segment_blocks: 64,
            max_source_bytes: 67_108_864,
            max_pending_bytes: 67_108_864,
            max_batch_bytes: 16_777_216,
        }
    );
    let many = PipelineConfig::for_workers(32);
    assert_eq!((many.fetch_workers, many.parser_workers), (4, 32));
    assert_eq!(validate_config(many), Ok(()));
}

#[test]
fn useless_limits_are_refused() {
    assert_eq!(validate_config(config()), Ok(()));
    let refused = [
        PipelineConfig { fetch_workers: 0, ..config() },
        PipelineConfig { parser_workers: 0, ..config() },
        PipelineConfig { source_segment_blocks: 0, ..config() },
        PipelineConfig { source_segment_blocks: 4_097, ..config() },
        PipelineConfig { max_source_bytes: 3, ..config() },
        PipelineConfig { max_pending_bytes: 0, max_batch_bytes: 0, ..config() },
        PipelineConfig { max_batch_bytes: 0, ..config() },
        PipelineConfig { max_batch_bytes: MIB + 1, ..config() },
    ];
    for refused in refused {
        assert_eq!(validate_config(refused), Err(PipelineError::Config));
    }
    let largest = PipelineConfig {
        source_segment_blocks: 4_096,
        max_batch_bytes: MIB,
        max_source_bytes: 4,
        ..config()
    };
    assert_eq!(validate_config(largest), Ok(()));
}

#[test]
fn fetchers_share_the_bytes() {
    assert_eq!(request_bytes(config()), MIB);
    assert_eq!(
        request_bytes(PipelineConfig { max_source_bytes: 3, ..config() }),
        1
    );
    assert_eq!(
        request_bytes(PipelineConfig { max_source_bytes: 1_000 * MIB, ..config() }),
        MAX_SOURCE_BYTES
    );
}

#[test]
fn probe_asks_for_the_block_at_the_tip() {
    let empty = IndexState::default();
    assert_eq!(first_missing(&empty), Ok(0));
    assert_eq!(
        probe_request(&empty, config()),
        Ok(SourceRequest { start: 0, count: 0, max_bytes: MIB })
    );
    let state = state_at(7);
    assert_eq!(first_missing(&state), Ok(8));
    assert_eq!(
        probe_request(&state, config()),
        Ok(SourceRequest { start: 7, count: 1, max_bytes: MIB })
    );
}

#[test]
fn plan_ends_ten_blocks_below_the_source() {
    let empty = IndexState::default();
    assert_eq!(
        plan_sync(&empty, &answer(0, 0, 20)),
        Ok(Some(SyncPlan { start: 0, target: 10, source_tip: tip(20) }))
    );
    assert_eq!(
        plan_sync(&empty, &answer(0, 0, 10)),
        Ok(Some(SyncPlan { start: 0, target: 0, source_tip: tip(10) }))
    );
    assert_eq!(plan_sync(&empty, &answer(0, 0, 9)), Ok(None));
    let state = state_at(7);
    assert_eq!(
        plan_sync(&state, &answer(7, 1, 18)),
        Ok(Some(SyncPlan { start: 8, target: 8, source_tip: tip(18) }))
    );
    assert_eq!(plan_sync(&state, &answer(7, 1, 17)), Ok(None));
}

#[test]
fn probes_that_do_not_fit_the_index_are_refused() {
    let state = state_at(7);
    let mut no_tip = answer(7, 1, 20);
    no_tip.source_tip = None;
    assert_eq!(plan_sync(&state, &no_tip), Err(PipelineError::NoSourceTip));
    let mismatch = Err(PipelineError::DurableTipMismatch { height: 7 });
    assert_eq!(plan_sync(&state, &answer(7, 0, 20)), mismatch);
    assert_eq!(plan_sync(&state, &answer(6, 1, 20)), mismatch);
    let mut fork = answer(7, 1, 20);
    fork.blocks[0].hash = [1; 32];
    assert_eq!(plan_sync(&state, &fork), mismatch);
    let mut pruned = answer(7, 1, 20);
    pruned.retained_body_floor = 9;
    assert_eq!(
        plan_sync(&state, &pruned),
        Err(PipelineError::MissingBody { height: 8 })
    );
    pruned.retained_body_floor = 8;
    assert_eq!(check_probe(&state, 8, &pruned), Ok(()));
}

#[test]
fn segments_cover_the_plan_without_overlap() {
    let mut heights = Vec::new();
    let mut start = 3u64;
    while let Some(segment) = segment_at(start, 4, 13) {
        heights.extend(segment.cursor..=segment.end);
        start += 4;
    }
    assert_eq!(heights, (3..=13).collect::<Vec<u32>>());
    assert_eq!(segment_at(14, 4, 13), None);
    assert_eq!(
        segment_at(u64::from(u32::MAX), 4_096, u32::MAX),
        Some(Segment { cursor: u32::MAX, end: u32::MAX })
    );
}

#[test]
fn segment_takes_blocks_in_order() {
    let mut segment = segment_at(8, 3, 20).unwrap();
    assert_eq!(
        segment.request(500),
        SourceRequest { start: 8, count: 3, max_bytes: 500 }
    );
    assert_eq!(segment.check_range(tip(30), &answer(8, 3, 30)), Ok(()));
    segment.accept(8).unwrap();
    assert_eq!(
        segment.accept(10),
        Err(PipelineError::SourceGap { expected: 9, actual: Some(10) })
    );
    segment.accept(9).unwrap();
    assert!(segment.is_open());
    assert_eq!(segment.request(500).count, 1);
    segment.accept(10).unwrap();
    assert!(!segment.is_open());
    assert_eq!(
        segment.accept(11),
        Err(PipelineError::SourceGap { expected: 11, actual: Some(11) })
    );
    let mut last = segment_at(u64::from(u32::MAX), 1, u32::MAX).unwrap();
    assert_eq!(
        last.accept(u32::MAX),
        Err(PipelineError::Ingest(IngestError::Overflow))
    );
}

#[test]
fn answers_of_another_chain_are_refused() {
    let segment = segment_at(8, 3, 20).unwrap();
    assert_eq!(
        segment.check_range(tip(30), &answer(8, 3, 31)),
        Err(PipelineError::SourceChanged)
    );
    let mut pruned = answer(8, 3, 30);
    pruned.retained_body_floor = 9;
    let missing = Err(PipelineError::MissingBody { height: 8 });
    assert_eq!(segment.check_range(tip(30), &pruned), missing);
    assert_eq!(segment.check_range(tip(30), &answer(8, 0, 30)), missing);
}

#[test]
fn blocks_wait_until_a_batch_is_full() {
    let prepared: Vec<PreparedCompactBlock> = (0..4)
        .map(|height| parse_block(&raw_block(height)).unwrap())
        .collect();
    let mut builder = OrderedBuilder::new(IndexState::default(), MIB).unwrap();
    let mut batches = Vec::new();
    for height in [1usize, 0, 3, 2] {
        if let Some(batch) =
            take_block(&mut builder, prepared[height].clone(), tip(30), 400).unwrap()
        {
            batches.push(batch);
        }
    }
    let heights: Vec<Vec<u32>> = batches
        .iter()
        .map(|batch| batch.records().iter().map(|record| record.height).collect())
        .collect();
    assert_eq!(heights, [vec![0], vec![1], vec![2]]);
    assert_eq!(
        take_block(&mut builder, prepared[0].clone(), tip(30), 400).unwrap_err(),
        IngestError::DuplicateHeight { height: 0 }
    );
}

#[test]
fn segments_in_any_order_commit_in_height_order() {
    let config = config();
    let mut state = IndexState::default();
    let probe = probe_request(&state, config).unwrap();
    let plan = plan_sync(&state, &answer(probe.start, probe.count, 20))
        .unwrap()
        .unwrap();
    let mut segments = Vec::new();
    let mut start = u64::from(plan.start);
    while let Some(segment) = segment_at(start, config.source_segment_blocks, plan.target) {
        segments.push(segment);
        start += u64::from(config.source_segment_blocks);
    }
    let mut builder = OrderedBuilder::new(state, config.max_pending_bytes).unwrap();
    let mut batches = Vec::new();
    for mut segment in segments.into_iter().rev() {
        while segment.is_open() {
            let request = segment.request(request_bytes(config));
            let range = answer(request.start, request.count, 20);
            segment.check_range(plan.source_tip, &range).unwrap();
            for block in &range.blocks {
                segment.accept(block.height).unwrap();
                let block = parse_block(block).unwrap();
                batches.extend(
                    take_block(&mut builder, block, plan.source_tip, config.max_batch_bytes)
                        .unwrap(),
                );
            }
        }
    }
    while let Some(batch) = builder
        .build_batch(plan.source_tip, config.max_batch_bytes)
        .unwrap()
    {
        batches.push(batch);
    }
    for batch in batches {
        state = finish_write(begin_write(state, &batch).unwrap().state)
            .unwrap()
            .0;
    }
    assert_eq!(state.durable_tip(), Some(tip(10)));

    let probe = probe_request(&state, config).unwrap();
    assert_eq!(
        plan_sync(&state, &answer(probe.start, probe.count, 20)),
        Ok(None)
    );
}

#[test]
fn pipeline_errors_read_as_sentences() {
    let words = [
        (
            PipelineError::Parse(CompactParseError::TruncatedHeader { height: 1 }),
            "block 1 has a truncated header",
        ),
        (
            PipelineError::Ingest(IngestError::Parent { height: 2 }),
            "block 2 does not connect to the previous canonical hash",
        ),
        (
            PipelineError::Index(IndexError::Overflow),
            "height or generation overflow",
        ),
        (
            PipelineError::Config,
            "pipeline configuration has a zero or out-of-range limit",
        ),
        (
            PipelineError::NoSourceTip,
            "Zakura has no finalized source tip",
        ),
        (
            PipelineError::MissingBody { height: 3 },
            "Zakura has pruned the required block body at height 3",
        ),
        (
            PipelineError::SourceChanged,
            "Zakura source changed during historical ingestion",
        ),
        (
            PipelineError::DurableTipMismatch { height: 4 },
            "LMDB durable tip at height 4 does not match Zakura",
        ),
        (
            PipelineError::SourceGap {
                expected: 5,
                actual: Some(6),
            },
            "Zakura returned a gap or wrong height: expected 5, got Some(6)",
        ),
        (
            PipelineError::SourceGap {
                expected: 5,
                actual: None,
            },
            "Zakura returned a gap or wrong height: expected 5, got None",
        ),
    ];
    for (error, words) in words {
        assert_eq!(error.message(), words);
    }
}
