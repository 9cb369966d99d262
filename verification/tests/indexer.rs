use ztreamer::index::{begin_write, finish_write, BlockId, IndexError, IndexState};
use zakura_chain::block::Block;
use zakura_chain::serialization::{ZcashDeserialize, ZcashSerialize};
use zakura_test::vectors::{
    BLOCK_MAINNET_1_BYTES, BLOCK_MAINNET_2_BYTES, BLOCK_MAINNET_949496_BYTES,
    BLOCK_MAINNET_GENESIS_BYTES,
};
use ztreamer::chain::{StoredHeader, StoredTransaction};
use ztreamer::indexer::pipeline::{
    first_missing, plan_sync, probe_request, stream_segment, validate_config, FetchStats,
    PipelineConfig, PipelineError, RawIndexBlock, SourceRange, StreamEnd, StreamSegment, SyncPlan,
    TransactionLocation, MAX_SOURCE_BYTES, MIB,
};
use ztreamer::indexer::range::{
    range_block, range_end, read_range, RangeHeaders, RangeReader, StoredRow,
};
use ztreamer::indexer::stream::{
    assemble_block, header_row, BlockReader, BlockStream, TransactionRow, TxidRow,
};
use ztreamer::ingest::{IngestError, OrderedBuilder};
use ztreamer::parser::{CompactParseError, PreparedCompactBlock};
use ztreamer::pipeline::SourceRequest;
use ztreamer::source::SyncProgress;

fn hash(height: u32) -> [u8; 32] {
    let mut hash = [0; 32];
    hash[..4].copy_from_slice(&height.to_be_bytes());
    hash
}

fn tip(height: u32) -> BlockId {
    BlockId::new(height, hash(height))
}

fn prepared(height: u32) -> PreparedCompactBlock {
    PreparedCompactBlock {
        height,
        hash: hash(height),
        previous_hash: height.checked_sub(1).map(hash).unwrap_or([0; 32]),
        time: height,
        header: Vec::new(),
        transactions: Vec::new(),
        sapling_additions: 0,
        orchard_additions: 0,
        ironwood_additions: 0,
    }
}

fn state_at(height: u32) -> IndexState {
    let mut builder = OrderedBuilder::new(IndexState::default(), MIB).unwrap();
    for height in 0..=height {
        builder.push(prepared(height)).unwrap();
    }
    let batch = builder.build_batch(tip(height + 10), MIB).unwrap().unwrap();
    let start = begin_write(IndexState::default(), &batch).unwrap();
    finish_write(start.state).unwrap().0
}

fn config() -> PipelineConfig {
    PipelineConfig {
        fetch_workers: 2,
        parser_workers: 2,
        source_segment_blocks: 64,
        max_source_bytes: MIB,
        max_pending_bytes: MIB,
        max_batch_bytes: MIB,
    }
}

fn read_block(height: u32, bytes: usize, txids: usize) -> RawIndexBlock {
    RawIndexBlock {
        height,
        hash: hash(height),
        bytes: vec![0; bytes],
        txids: vec![[1; 32]; txids],
    }
}

fn probe(height: u32, source_tip: u32) -> SourceRange {
    SourceRange {
        blocks: vec![read_block(height, 10, 1)],
        retained_body_floor: 0,
        source_tip: Some(tip(source_tip)),
    }
}

fn at(height: u32, index: u16) -> TransactionLocation {
    TransactionLocation { height, index }
}

fn header() -> StoredHeader {
    StoredHeader::read(&BLOCK_MAINNET_1_BYTES).unwrap()
}

/// The bytes of that header.
fn header_bytes() -> Vec<u8> {
    BLOCK_MAINNET_1_BYTES[..1_487].to_vec()
}

fn chain_block(bytes: &[u8]) -> Block {
    Block::zcash_deserialize(bytes).unwrap()
}

/// The headers and rows of blocks, as if they were those from height 7 on.
fn stored(blocks: &[&[u8]]) -> (RangeHeaders, Vec<StoredRow>) {
    let request = SourceRequest {
        start: 7,
        count: blocks.len() as u32,
        max_bytes: 0,
    };
    let mut headers = RangeHeaders::new(request, Some(1_000));
    let mut rows = Vec::new();
    for bytes in blocks {
        let height = headers.next_height().unwrap();
        headers.push(StoredHeader::read(bytes)).unwrap();
        for (index, transaction) in chain_block(bytes).transactions.iter().enumerate() {
            let bytes = transaction.zcash_serialize_to_vec().unwrap();
            rows.push(StoredRow {
                location: at(height, index as u16),
                transaction: StoredTransaction::read(&bytes).unwrap(),
            });
        }
    }
    assert_eq!(headers.next_height(), None);
    (headers, rows)
}

fn reader(height: u32, bodies: usize) -> BlockReader {
    let mut reader = BlockReader::start(height, Some((height, header()))).unwrap();
    for index in 0..bodies {
        let location = at(height, index as u16);
        assert!(reader.wants(location));
        reader
            .push(
                TransactionRow {
                    location,
                    bytes: vec![index as u8; 2],
                },
                Some(TxidRow {
                    location,
                    txid: [index as u8; 32],
                }),
            )
            .unwrap();
    }
    reader
}

fn open_end() -> StreamEnd {
    StreamEnd {
        height: 1_000,
        hash: None,
    }
}

#[test]
fn database_limits_differ_from_those_of_a_source() {
    assert_eq!(
        PipelineConfig::for_workers(3),
        PipelineConfig {
            fetch_workers: 3,
            parser_workers: 3,
            source_segment_blocks: 256,
            max_source_bytes: 67_108_864,
            max_pending_bytes: 268_435_456,
            max_batch_bytes: 16_777_216,
        }
    );
    let many = PipelineConfig::for_workers(64);
    assert_eq!((many.fetch_workers, many.parser_workers), (8, 64));
    assert_eq!(validate_config(many), Ok(()));
    assert_eq!(
        validate_config(PipelineConfig {
            source_segment_blocks: 4_097,
            ..config()
        }),
        Err(PipelineError::Config)
    );
}

#[test]
fn stats_add_up() {
    let mut stats = FetchStats {
        header_read: 1,
        transaction_read: 2,
        txid_read: 3,
        assemble: 4,
        send_wait: 5,
        ..FetchStats::default()
    };
    let segment = StreamSegment {
        start: 3,
        end: open_end(),
    };
    let mut stream = BlockStream::new(segment, 10_000);
    let empty = stats;
    stats.note_stream(&stream);
    assert_eq!(stats, empty);
    stream.finish_block(reader(3, 1), None).unwrap();
    stream.finish_block(reader(4, 2), None).unwrap();
    stats.note_stream(&stream);
    assert_eq!((stats.read, stats.ranges), (10, 1));
    assert_eq!((stats.blocks, stats.bytes), (2, 1_490 + 1_492));
    let other = stats;
    stats.add(other);
    assert_eq!(
        stats,
        FetchStats {
            read: 20,
            header_read: 2,
            transaction_read: 4,
            txid_read: 6,
            assemble: 8,
            send_wait: 10,
            ranges: 2,
            blocks: 4,
            bytes: 2 * 2_982,
        }
    );
}

#[test]
fn database_is_probed_at_the_tip() {
    assert_eq!(
        probe_request(&IndexState::default(), config()),
        Ok(SourceRequest {
            start: 0,
            count: 0,
            max_bytes: MIB / 2
        })
    );
    assert_eq!(
        probe_request(
            &state_at(4),
            PipelineConfig {
                max_source_bytes: 1_000 * MIB,
                ..config()
            }
        ),
        Ok(SourceRequest {
            start: 4,
            count: 1,
            max_bytes: MAX_SOURCE_BYTES
        })
    );
}

#[test]
fn plan_goes_up_to_the_finalized_tip() {
    let empty = IndexState::default();
    let mut first = probe(0, 3);
    first.blocks.clear();
    assert_eq!(
        plan_sync(&empty, &first),
        Ok(Some(SyncPlan {
            start: 0,
            source_tip: tip(3)
        }))
    );
    let state = state_at(4);
    assert_eq!(first_missing(&state), Ok(5));
    assert_eq!(
        plan_sync(&state, &probe(4, 5)),
        Ok(Some(SyncPlan {
            start: 5,
            source_tip: tip(5)
        }))
    );
    assert_eq!(plan_sync(&state, &probe(4, 4)), Ok(None));
    assert_eq!(plan_sync(&state, &probe(9, 3)), Ok(None));
    assert_eq!(
        plan_sync(&state, &probe(3, 9)),
        Err(PipelineError::DurableTipMismatch { height: 4 })
    );
    let mut pruned = probe(4, 9);
    pruned.retained_body_floor = 6;
    assert_eq!(
        plan_sync(&state, &pruned),
        Err(PipelineError::MissingBody { height: 5 })
    );
    pruned.source_tip = None;
    assert_eq!(plan_sync(&state, &pruned), Err(PipelineError::NoSourceTip));
}

#[test]
fn only_the_last_segment_knows_its_hash() {
    let segment = stream_segment(0, 64, tip(100)).unwrap();
    assert_eq!((segment.start, segment.end.height), (0, 63));
    assert_eq!(segment.end.hash, None);
    let segment = stream_segment(64, 64, tip(100)).unwrap();
    assert_eq!((segment.start, segment.end.height), (64, 100));
    assert_eq!(segment.end.hash, Some(hash(100)));
    assert!(stream_segment(101, 64, tip(100)).is_none());
}

#[test]
fn ranges_end_with_the_chain() {
    assert_eq!(range_end(5, 3, Some(100)), Some(7));
    assert_eq!(range_end(5, 3, Some(6)), Some(6));
    assert_eq!(range_end(5, 3, Some(4)), None);
    assert_eq!(range_end(5, 0, Some(100)), None);
    assert_eq!(range_end(5, 3, None), None);
    assert_eq!(range_end(u32::MAX, 2, Some(u32::MAX)), None);
    assert_eq!(range_end(u32::MAX, 1, Some(u32::MAX)), Some(u32::MAX));
}

#[test]
fn range_takes_as_many_blocks_as_fit() {
    let mut range = RangeReader::new(0, 5, 200);
    assert_eq!(range.next_height(), Some(0));
    assert_eq!(range.push(read_block(0, 60, 1)), Ok(true));
    assert_eq!(range.push(read_block(1, 76, 1)), Ok(true));
    assert_eq!(range.next_height(), Some(2));
    assert_eq!(range.push(read_block(2, 0, 1)), Ok(false));
    assert_eq!(
        range.push(read_block(2, 5, 0)),
        Err(PipelineError::MissingBody { height: 2 })
    );
    assert_eq!(range.next_height(), Some(2));
    assert_eq!(range.finish().len(), 2);

    let mut small = RangeReader::new(3, 3, 91);
    assert_eq!(
        small.push(read_block(3, 60, 1)),
        Err(PipelineError::BlockExceedsByteLimit {
            height: 3,
            required: 92,
            limit: 91
        })
    );
    let mut whole = RangeReader::new(3, 3, 92);
    assert_eq!(whole.push(read_block(3, 60, 1)), Ok(true));
    assert_eq!(whole.next_height(), None);
}

#[test]
fn headers_are_read_from_first_to_last() {
    let request = SourceRequest {
        start: 7,
        count: 3,
        max_bytes: 100,
    };
    let mut headers = RangeHeaders::new(request, Some(8));
    assert_eq!(headers.bounds(), Some((7, 8)));
    assert_eq!(headers.next_height(), Some(7));
    headers.push(Some(header())).unwrap();
    assert_eq!(headers.next_height(), Some(8));
    assert_eq!(
        headers.push(None),
        Err(PipelineError::SourceGap {
            expected: 8,
            actual: None
        })
    );
    headers.push(Some(header())).unwrap();
    assert_eq!(headers.next_height(), None);

    let none = RangeHeaders::new(request, Some(6));
    assert_eq!((none.bounds(), none.next_height()), (None, None));
    let range = read_range(none, &Vec::new(), 100, 4, Some(tip(6))).unwrap();
    assert!(range.blocks.is_empty());
    assert_eq!(range.retained_body_floor, 4);
    assert_eq!(range.source_tip, Some(tip(6)));
}

#[test]
fn ranges_hold_the_blocks_of_the_chain() {
    let chain: [&[u8]; 3] = [
        &BLOCK_MAINNET_1_BYTES,
        &BLOCK_MAINNET_949496_BYTES,
        &BLOCK_MAINNET_2_BYTES,
    ];
    let (headers, rows) = stored(&chain);
    let range = read_range(headers, &rows, MIB, 0, Some(tip(1_000))).unwrap();
    assert_eq!(range.blocks.len(), 3);
    for (index, bytes) in chain.iter().enumerate() {
        let expected = chain_block(bytes);
        let block = &range.blocks[index];
        assert_eq!(block.height, 7 + index as u32);
        assert_eq!(block.hash, expected.hash().0);
        assert_eq!(block.bytes, *bytes);
        let txids: Vec<[u8; 32]> = expected
            .transactions
            .iter()
            .map(|transaction| transaction.hash().0)
            .collect();
        assert_eq!(block.txids, txids);
    }
    assert!(range.blocks[1].txids.len() > 1);

    let first = BLOCK_MAINNET_1_BYTES.len() + 32;
    let (headers, rows) = stored(&chain);
    let range = read_range(headers, &rows, first, 0, None).unwrap();
    assert_eq!(range.blocks.len(), 1);
    let (headers, rows) = stored(&chain);
    assert_eq!(
        read_range(headers, &rows, first - 1, 0, None),
        Err(PipelineError::BlockExceedsByteLimit {
            height: 7,
            required: first,
            limit: first - 1
        })
    );
}

#[test]
fn ranges_need_the_rows_of_every_block() {
    let (headers, mut rows) = stored(&[&BLOCK_MAINNET_1_BYTES, &BLOCK_MAINNET_2_BYTES]);
    rows.pop();
    assert_eq!(
        read_range(headers, &rows, MIB, 0, None),
        Err(PipelineError::MissingBody { height: 8 })
    );
    let (headers, mut rows) = stored(&[&BLOCK_MAINNET_1_BYTES, &BLOCK_MAINNET_2_BYTES]);
    rows.swap(0, 1);
    assert_eq!(
        read_range(headers, &rows, MIB, 0, None),
        Err(PipelineError::MissingBody { height: 7 })
    );
}

#[test]
fn blocks_are_made_of_some_of_the_rows() {
    let (_, rows) = stored(&[&BLOCK_MAINNET_1_BYTES, &BLOCK_MAINNET_2_BYTES]);
    let header = StoredHeader::read(&BLOCK_MAINNET_2_BYTES).unwrap();
    let block = range_block(8, &header, &rows, 1, 2);
    assert_eq!(block.bytes, *BLOCK_MAINNET_2_BYTES);
    let empty = range_block(8, &header, &rows, 1, 1);
    assert_eq!(empty.bytes.len(), 1_488);
    assert!(empty.txids.is_empty());
}

#[test]
fn headers_carry_the_hash_of_their_bytes() {
    let row = header_row(5, &header());
    assert_eq!(row.height, 5);
    assert_eq!(row.bytes, header_bytes());
    assert_eq!(row.hash, chain_block(&BLOCK_MAINNET_1_BYTES).hash().0);
    let genesis = header_row(0, &StoredHeader::read(&BLOCK_MAINNET_GENESIS_BYTES).unwrap());
    assert_eq!(
        genesis.hash,
        chain_block(&BLOCK_MAINNET_GENESIS_BYTES).hash().0
    );
    assert_ne!(genesis.hash, row.hash);
    assert!(StoredHeader::read(&header_bytes()[1..]).is_none());
    let mut old_version = header_bytes();
    old_version[0] = 3;
    assert!(StoredHeader::read(&old_version).is_none());
}

#[test]
fn transactions_are_written_and_named() {
    let block = chain_block(&BLOCK_MAINNET_949496_BYTES);
    for transaction in &block.transactions {
        let bytes = transaction.zcash_serialize_to_vec().unwrap();
        let stored = StoredTransaction::read(&bytes).unwrap();
        assert_eq!(stored.bytes(), bytes);
        assert_eq!(stored.id(), transaction.hash().0);
        assert!(StoredTransaction::read(&bytes[..bytes.len() - 1]).is_none());
    }
    assert!(StoredTransaction::read(&[]).is_none());
}

#[test]
fn streams_give_out_every_height() {
    let hash = chain_block(&BLOCK_MAINNET_1_BYTES).hash().0;
    let end = StreamEnd {
        height: 6,
        hash: Some(hash),
    };
    let mut stream = BlockStream::new(StreamSegment { start: 4, end }, 10_000);
    let mut heights = Vec::new();
    while let Some(height) = stream.next_height() {
        let mut block = stream.start_block(Some((height, header()))).unwrap();
        let location = at(height, 0);
        let transaction = TransactionRow {
            location,
            bytes: vec![1, 2],
        };
        let txid = TxidRow {
            location,
            txid: [3; 32],
        };
        block.push(transaction, Some(txid)).unwrap();
        assert_eq!(block.transactions(), 1);
        let block = stream.finish_block(block, Some(at(height + 1, 0))).unwrap();
        assert_eq!(block.hash, hash);
        assert_eq!(&block.bytes[..1_487], header_bytes());
        heights.push(block.height);
    }
    assert_eq!(heights, [4, 5, 6]);
    assert_eq!((stream.blocks(), stream.bytes()), (3, 3 * 1_490));

    let stream = BlockStream::new(
        StreamSegment {
            start: 4,
            end: StreamEnd { height: 3, hash: None },
        },
        10,
    );
    assert_eq!(stream.next_height(), None);
}

#[test]
fn streams_end_at_the_known_hash() {
    let end = StreamEnd {
        height: 5,
        hash: Some([9; 32]),
    };
    let mut stream = BlockStream::new(StreamSegment { start: 4, end }, 10_000);
    assert_eq!(
        stream.start_block(Some((5, header()))).unwrap_err(),
        PipelineError::SourceGap {
            expected: 4,
            actual: Some(5)
        }
    );
    stream.finish_block(reader(4, 1), None).unwrap();
    assert_eq!(
        stream.finish_block(reader(5, 1), None),
        Err(PipelineError::SourceChanged)
    );
    assert_eq!(stream.next_height(), Some(5));
}

#[test]
fn block_is_header_count_and_transactions() {
    let block = assemble_block(reader(9, 3), Some(at(10, 0)), open_end(), 10_000).unwrap();
    assert_eq!(block.height, 9);
    assert_eq!(block.hash, chain_block(&BLOCK_MAINNET_1_BYTES).hash().0);
    assert_eq!(&block.bytes[..1_487], header_bytes());
    assert_eq!(&block.bytes[1_487..], [3, 0, 0, 1, 1, 2, 2]);
    assert_eq!(block.txids, [[0; 32], [1; 32], [2; 32]]);
}

#[test]
fn long_blocks_have_longer_counts() {
    let block = assemble_block(reader(9, 253), None, open_end(), 100_000).unwrap();
    assert_eq!(&block.bytes[1_487..1_492], [253, 253, 0, 0, 0]);
    assert_eq!(block.bytes.len(), 1_487 + 3 + 2 * 253);
    let block = assemble_block(reader(9, 252), None, open_end(), 100_000).unwrap();
    assert_eq!(&block.bytes[1_487..1_489], [252, 0]);
    let block = assemble_block(reader(9, 65_536), None, open_end(), 10_000_000).unwrap();
    assert_eq!(&block.bytes[1_487..1_492], [254, 0, 0, 1, 0]);
}

#[test]
fn headers_must_come_in_order() {
    assert_eq!(
        BlockReader::start(4, None).unwrap_err(),
        PipelineError::SourceGap {
            expected: 4,
            actual: None
        }
    );
    assert_eq!(
        BlockReader::start(4, Some((5, header()))).unwrap_err(),
        PipelineError::SourceGap {
            expected: 4,
            actual: Some(5)
        }
    );
}

#[test]
fn tables_must_agree() {
    let mut block = reader(4, 1);
    assert!(!block.wants(at(5, 0)));
    let transaction = TransactionRow {
        location: at(4, 1),
        bytes: vec![1],
    };
    assert_eq!(
        block.push(transaction.clone(), None),
        Err(PipelineError::SourceChanged)
    );
    for location in [at(4, 2), at(5, 1)] {
        let row = TxidRow {
            location,
            txid: [0; 32],
        };
        assert_eq!(
            block.push(transaction.clone(), Some(row)),
            Err(PipelineError::SourceChanged)
        );
    }
    assert_eq!(block.transactions(), 1);
    assert_eq!(
        assemble_block(block, Some(at(4, 1)), open_end(), 10_000),
        Err(PipelineError::SourceChanged)
    );
}

#[test]
fn unfit_blocks_say_why() {
    assert_eq!(
        assemble_block(reader(4, 0), None, open_end(), 10_000),
        Err(PipelineError::MissingBody { height: 4 })
    );
    let end = StreamEnd {
        height: 4,
        hash: Some([9; 32]),
    };
    assert_eq!(
        assemble_block(reader(4, 1), None, end, 10_000),
        Err(PipelineError::SourceChanged)
    );
    assert!(assemble_block(reader(3, 1), None, end, 10_000).is_ok());
    let end = StreamEnd {
        height: 4,
        hash: Some(chain_block(&BLOCK_MAINNET_1_BYTES).hash().0),
    };
    assert!(assemble_block(reader(4, 1), None, end, 1_522).is_ok());
    assert_eq!(
        assemble_block(reader(4, 1), None, end, 1_521),
        Err(PipelineError::BlockExceedsByteLimit {
            height: 4,
            required: 1_522,
            limit: 1_521
        })
    );
}

#[test]
fn sync_settles_once_the_tip_stays() {
    let mut progress = SyncProgress::default();
    assert!(!progress.is_settled(&IndexState::default()));
    assert!(!progress.is_settled(&state_at(4)));
    assert!(!progress.is_settled(&state_at(5)));
    assert!(progress.is_settled(&state_at(5)));
    let mut progress = SyncProgress::default();
    assert!(!progress.is_settled(&IndexState::default()));
    assert!(progress.is_settled(&IndexState::default()));
}

#[test]
fn blocks_are_checked_before_they_are_put_together() {
    let end = StreamEnd {
        height: 5,
        hash: Some([9; 32]),
    };
    let stream = BlockStream::new(StreamSegment { start: 4, end }, 10);
    assert_eq!(
        stream.check_block(&reader(4, 0), None),
        Err(PipelineError::MissingBody { height: 4 })
    );
    assert_eq!(
        stream.check_block(&reader(4, 1), Some(at(4, 1))),
        Err(PipelineError::SourceChanged)
    );
    assert_eq!(
        stream.check_block(&reader(5, 1), None),
        Err(PipelineError::SourceChanged)
    );
    assert_eq!(stream.check_block(&reader(4, 1), Some(at(5, 0))), Ok(()));
}

#[test]
fn database_errors_read_as_sentences() {
    let words = [
        (
            PipelineError::Parse(CompactParseError::CommitmentCount { height: 1 }),
            "block 1 commitment count exceeds u32",
        ),
        (
            PipelineError::Ingest(IngestError::TreeSize { height: 2 }),
            "block 2 commitment-tree size overflow",
        ),
        (
            PipelineError::Index(IndexError::Metadata),
            "LMDB metadata is incomplete or inconsistent",
        ),
        (
            PipelineError::Config,
            "pipeline configuration has a zero or out-of-range limit",
        ),
        (
            PipelineError::NoSourceTip,
            "Zakura has no finalized source tip",
        ),
        (
            PipelineError::MissingBody { height: 3 },
            "Zakura has pruned the required block body at height 3",
        ),
        (
            PipelineError::BlockExceedsByteLimit {
                height: 4,
                required: 50,
                limit: 40,
            },
            "Zakura block at height 4 needs 50 source bytes, limit is 40",
        ),
        (
            PipelineError::SourceSize { height: 5 },
            "Zakura source size overflowed at height 5",
        ),
        (
            PipelineError::SourceChanged,
            "Zakura source changed during historical ingestion",
        ),
        (
            PipelineError::DurableTipMismatch { height: 6 },
            "LMDB durable tip at height 6 does not match Zakura",
        ),
        (
            PipelineError::SourceGap {
                expected: 7,
                actual: Some(10),
            },
            "Zakura returned a gap or wrong height: expected 7, got Some(10)",
        ),
    ];
    for (error, words) in words {
        assert_eq!(error.message(), words);
    }
}
