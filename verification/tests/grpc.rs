use std::io::Cursor;

use zakura_chain::block;
use zakura_chain::orchard::tree as orchard;
use zakura_chain::sapling::tree as sapling;
use zakura_chain::serialization::{ZcashDeserialize, ZcashSerialize};
use zakura_test::vectors::BLOCK_MAINNET_1_BYTES;
use ztreamer::chain::StoredTransaction;
use ztreamer::codec::{CodecError, CompactBlockRecord, TreeSizes};
use ztreamer::grpc::{
    check_pools, found_record, found_transaction, index_status, lightd_info, lookup, ping,
    range_heights, range_request, reader_status, source_status, subtree_query, subtree_root,
    stored_transaction, transaction_hash, tree_state, tree_state_of_bytes, unexpected_response, unsupported, BlockRange,
    BlockRef, Code, HeightWalk, Lookup, PingResponse, PoolType, ServingSnapshot, ShieldedProtocol,
    Status, SubtreeQuery, SubtreeRootsArg, MAX_RANGE_READERS,
};
use ztreamer::index::{
    begin_write, decode_place, finish_write, next_range, record_place, seal_range, BlockId,
    IndexError, IndexState,
};
use ztreamer::indexer::tree::{append_orchard, append_sapling, TreeError};
use ztreamer::ingest::OrderedBuilder;
use ztreamer::parser::{parse_block, RawIndexBlock, RawIndexTransaction};

fn hash(height: u32) -> [u8; 32] {
    let mut hash = [0; 32];
    hash[..4].copy_from_slice(&height.to_be_bytes());
    hash
}

fn raw_block(height: u32) -> RawIndexBlock {
    let mut header = vec![0; 140];
    header[4..36].copy_from_slice(&height.checked_sub(1).map(hash).unwrap_or([0; 32]));
    header[100..104].copy_from_slice(&height.to_le_bytes());
    RawIndexBlock {
        height,
        hash: hash(height),
        header,
        transactions: vec![RawIndexTransaction {
            txid: hash(height),
            bytes: vec![1, 0, 0, 0, 0, 0, 0, 0, 0, 0],
        }],
    }
}

fn at_height(height: u64) -> BlockRef {
    BlockRef {
        height,
        hash: Vec::new(),
    }
}

fn record(height: u32) -> CompactBlockRecord {
    CompactBlockRecord {
        height,
        hash: hash(height),
        previous_hash: [0; 32],
        time: 77,
        end_tree_sizes: TreeSizes {
            sapling: 0,
            orchard: 0,
            ironwood: 0,
        },
        header: Vec::new(),
        transactions: Vec::new(),
    }
}

fn status(code: Code, message: &str) -> Status {
    Status {
        code,
        message: message.to_owned(),
    }
}

fn heights(mut walk: HeightWalk) -> Vec<u32> {
    let mut heights = Vec::new();
    while let Some(height) = walk.next_height() {
        heights.push(height);
    }
    assert_eq!(walk.next_height(), None);
    heights
}

#[test]
fn streams_cross_range_descending_and_rejects_transparent_data() {
    let source_tip = BlockId::new(1_105, hash(1_105));
    let mut builder = OrderedBuilder::new(IndexState::default(), 1024 * 1024).unwrap();
    for height in 0..=1_005 {
        builder
            .push(parse_block(&raw_block(height)).unwrap())
            .unwrap();
    }
    let batch = builder
        .build_batch(source_tip, 1024 * 1024)
        .unwrap()
        .unwrap();
    let start = begin_write(IndexState::default(), &batch).unwrap();
    assert_eq!(next_range(&start.state, source_tip.height), Ok(Some(0)));
    let mut rows: Vec<Option<Vec<u8>>> =
        start.rows.into_iter().map(|row| Some(row.bytes)).collect();
    let mutable = rows.split_off(1_000);
    let sealed = seal_range(start.state, 0, &rows).unwrap();
    let (state, _) = finish_write(sealed.state).unwrap();

    let range = BlockRange {
        start: Some(at_height(1_002)),
        end: Some(at_height(998)),
        pool_types: Vec::new(),
    };
    let mut walk = range_request(&range).unwrap();
    let mut heights = Vec::new();
    while let Some(height) = walk.next_height() {
        let place = record_place(&state, height);
        let bytes = if height < 1_000 {
            &sealed.bytes
        } else {
            mutable[height as usize - 1_000].as_ref().unwrap()
        };
        heights.push(decode_place(place, bytes).unwrap().height);
    }
    assert_eq!(heights, [1_002, 1_001, 1_000, 999, 998]);

    let mut transparent = range;
    transparent.pool_types = vec![PoolType::Transparent];
    assert_eq!(
        range_request(&transparent).unwrap_err().code,
        Code::InvalidArgument
    );
    assert_eq!(unsupported("SendTransaction").code, Code::Unimplemented);
}

#[test]
fn walks_go_up_down_and_nowhere() {
    assert_eq!(heights(HeightWalk::new(3, 6)), [3, 4, 5, 6]);
    assert_eq!(heights(HeightWalk::new(6, 3)), [6, 5, 4, 3]);
    assert_eq!(heights(HeightWalk::new(7, 7)), [7]);
    assert_eq!(
        heights(HeightWalk::new(u32::MAX - 1, u32::MAX)),
        [u32::MAX - 1, u32::MAX]
    );
    assert_eq!(heights(HeightWalk::new(1, 0)), [1, 0]);
}

#[test]
fn snapshot_shows_the_durable_tip() {
    let empty = ServingSnapshot::from(IndexState::default());
    assert_eq!(
        empty.latest_block(),
        Err(status(Code::Unavailable, "compact index is empty"))
    );
    let info = lightd_info(&empty, "main", "1.2.3");
    assert_eq!((info.block_height, info.estimated_height), (0, 0));

    let snapshot = ServingSnapshot {
        generation: 4,
        visible_tip: Some(BlockId::new(9, hash(9))),
    };
    assert_eq!(
        snapshot.latest_block(),
        Ok(BlockRef {
            height: 9,
            hash: hash(9).to_vec()
        })
    );
    let info = lightd_info(&snapshot, "main", "1.2.3");
    assert_eq!(info.version, "1.2.3");
    assert_eq!(info.vendor, "Ztreamer");
    assert!(!info.taddr_support);
    assert_eq!(info.chain_name, "main");
    assert_eq!((info.block_height, info.estimated_height), (9, 9));
    assert_eq!(info.lightwallet_protocol_version, "0.5.0");

    let mut builder = OrderedBuilder::new(IndexState::default(), 1024).unwrap();
    builder.push(parse_block(&raw_block(0)).unwrap()).unwrap();
    let batch = builder
        .build_batch(BlockId::new(20, hash(20)), 1024)
        .unwrap()
        .unwrap();
    let state = begin_write(IndexState::default(), &batch).unwrap().state;
    let (state, _) = finish_write(state).unwrap();
    assert_eq!(
        ServingSnapshot::from(state),
        ServingSnapshot {
            generation: 1,
            visible_tip: Some(BlockId::new(0, hash(0)))
        }
    );
}

#[test]
fn blocks_are_looked_up_by_height_or_hash() {
    assert_eq!(lookup(&at_height(9)), Ok(Lookup::Height(9)));
    assert_eq!(
        lookup(&at_height(1 << 32)),
        Err(status(Code::InvalidArgument, "block height exceeds u32"))
    );
    let mut block = BlockRef {
        height: 1 << 32,
        hash: vec![5; 32],
    };
    assert_eq!(lookup(&block), Ok(Lookup::Hash([5; 32])));
    block.hash.pop();
    assert_eq!(
        lookup(&block),
        Err(status(Code::InvalidArgument, "block hash must be 32 bytes"))
    );
}

#[test]
fn lookups_are_answered() {
    assert_eq!(found_record(Ok(Some(record(3)))), Ok(record(3)));
    assert_eq!(
        found_record(Ok(None)),
        Err(status(
            Code::NotFound,
            "block is not in the indexed canonical chain"
        ))
    );
    assert_eq!(
        found_record(Err(IndexError::Metadata)),
        Err(status(
            Code::Internal,
            "LMDB metadata is incomplete or inconsistent"
        ))
    );
}

#[test]
fn ranges_need_heights_at_both_ends() {
    let invalid = |message: &str| Err(status(Code::InvalidArgument, message));
    let mut range = BlockRange {
        start: Some(at_height(5)),
        end: Some(at_height(2)),
        pool_types: vec![PoolType::Sapling, PoolType::Transparent],
    };
    assert_eq!(range_heights(&range), Ok((5, 2)));
    assert_eq!(
        check_pools(&range.pool_types),
        Err(status(
            Code::InvalidArgument,
            "transparent data is not served"
        ))
    );
    assert_eq!(
        check_pools(&vec![
            PoolType::Sapling,
            PoolType::Orchard,
            PoolType::Ironwood
        ]),
        Ok(())
    );
    range.end = None;
    assert_eq!(range_heights(&range), invalid("range.end is required"));
    range.start = Some(at_height(1 << 32));
    assert_eq!(range_heights(&range), invalid("range height exceeds u32"));
    range.start = Some(BlockRef {
        height: 1,
        hash: vec![1],
    });
    assert_eq!(
        range_heights(&range),
        invalid("range endpoints must be heights")
    );
    range.start = None;
    assert_eq!(range_heights(&range), invalid("range.start is required"));
    assert_eq!(
        range_request(&range).unwrap_err(),
        status(Code::InvalidArgument, "range.start is required")
    );
}

#[test]
fn trees_are_answered_in_hexadecimal() {
    let state = tree_state_of_bytes(
        "main",
        &record(0x01020304),
        Some(vec![0, 0x1f, 0xa0]),
        None,
        Some(Vec::new()),
    );
    assert_eq!(state.network, "main");
    assert_eq!(state.height, 0x01020304);
    assert_eq!(state.time, 77);
    assert_eq!(
        state.hash,
        "0000000000000000000000000000000000000000000000000000000004030201"
    );
    assert_eq!(state.hash, block::Hash(hash(0x01020304)).to_string());
    assert_eq!(state.sapling_tree, "001fa0");
    assert_eq!(state.orchard_tree, "");
    assert_eq!(state.ironwood_tree, "");
}

#[test]
fn trees_of_the_chain_are_answered() {
    let mut sapling = sapling::NoteCommitmentTree::default();
    let leaf = sapling::NoteCommitmentUpdate::zcash_deserialize(Cursor::new([1; 32])).unwrap();
    append_sapling(&mut sapling, &[leaf]).unwrap();
    let mut ironwood = orchard::NoteCommitmentTree::default();
    let leaf = orchard::NoteCommitmentUpdate::zcash_deserialize(Cursor::new([2; 32])).unwrap();
    append_orchard(&mut ironwood, &[leaf]).unwrap();
    let state = tree_state("test", &record(1), &Some(sapling), &None, &Some(ironwood));
    let no_parents = format!("001f{}", "00".repeat(31));
    assert_eq!(
        state.sapling_tree,
        format!("01{}{no_parents}", "01".repeat(32))
    );
    assert_eq!(state.orchard_tree, "");
    assert_eq!(
        state.ironwood_tree,
        format!("01{}{no_parents}", "02".repeat(32))
    );
}

#[test]
fn subtree_requests_are_checked() {
    let request = SubtreeRootsArg {
        start_index: 3,
        shielded_protocol: Some(ShieldedProtocol::Orchard),
        max_entries: 65_535,
    };
    assert_eq!(
        subtree_query(request),
        Ok(SubtreeQuery {
            protocol: ShieldedProtocol::Orchard,
            start_index: 3,
            limit: Some(65_535)
        })
    );
    assert_eq!(
        subtree_query(SubtreeRootsArg {
            max_entries: 0,
            ..request
        })
        .unwrap()
        .limit,
        None
    );
    let invalid = |message: &str| Err(status(Code::InvalidArgument, message));
    let unknown = SubtreeRootsArg {
        shielded_protocol: None,
        ..request
    };
    assert_eq!(subtree_query(unknown), invalid("invalid shielded protocol"));
    let long = SubtreeRootsArg {
        max_entries: 65_536,
        ..unknown
    };
    assert_eq!(
        subtree_query(long),
        invalid("subtree entry limit exceeds u16")
    );
    assert_eq!(
        subtree_query(SubtreeRootsArg {
            start_index: 65_536,
            ..long
        }),
        invalid("subtree start index exceeds u16")
    );
}

#[test]
fn subtree_roots_name_their_blocks() {
    let root = subtree_root(vec![1, 2], 8, Ok(record(8))).unwrap();
    assert_eq!(root.root_hash, [1, 2]);
    assert_eq!(root.completing_block_hash, hash(8));
    assert_eq!(root.completing_block_height, 8);
    assert_eq!(
        subtree_root(vec![1, 2], 8, Err(IndexError::Coverage { height: 8 }))
            .unwrap_err()
            .code,
        Code::OutOfRange
    );
}

#[test]
fn transactions_are_asked_for_by_hash() {
    assert_eq!(transaction_hash(&vec![6; 32]), Ok([6; 32]));
    for len in [0, 31, 33] {
        assert_eq!(
            transaction_hash(&vec![6; len]),
            Err(status(
                Code::InvalidArgument,
                "transaction hash must be 32 bytes"
            ))
        );
    }
    let found = found_transaction(Some((vec![1, 2, 3], 9))).unwrap();
    assert_eq!((found.data, found.height), (vec![1, 2, 3], 9));
    let missing = Err(status(Code::NotFound, "transaction not found"));
    assert_eq!(found_transaction(None), missing);
    assert_eq!(stored_transaction(&None), missing);
    let block = block::Block::zcash_deserialize(&BLOCK_MAINNET_1_BYTES[..]).unwrap();
    let bytes = block.transactions[0].zcash_serialize_to_vec().unwrap();
    let stored = StoredTransaction::read(&bytes).unwrap();
    let found = stored_transaction(&Some((stored, 9))).unwrap();
    assert_eq!((found.data, found.height), (bytes, 9));
}

#[test]
fn failures_have_codes_and_words() {
    assert_eq!(ping(), PingResponse { entry: 1, exit: 0 });
    assert_eq!(MAX_RANGE_READERS, 16);
    assert_eq!(
        unsupported("GetMempoolTx"),
        status(
            Code::Unimplemented,
            "Ztreamer does not support GetMempoolTx"
        )
    );
    assert_eq!(
        source_status("gone"),
        status(Code::Unavailable, "Zakura read failed: gone")
    );
    assert_eq!(
        reader_status("gone"),
        status(Code::Unavailable, "LMDB reader failed: gone")
    );
    assert_eq!(
        unexpected_response("Sapling tree"),
        status(Code::Internal, "unexpected Sapling tree response")
    );
    assert_eq!(
        index_status(&IndexError::Coverage { height: 1 }).code,
        Code::OutOfRange
    );
    assert_eq!(
        index_status(&IndexError::Generation { generation: 1 }).code,
        Code::Unavailable
    );
    assert_eq!(
        index_status(&IndexError::Overflow),
        status(Code::Internal, "height or generation overflow")
    );
}

#[test]
fn errors_of_the_index_are_put_into_words() {
    let words = [
        (
            IndexError::Codec(CodecError::Truncated),
            "encoded value is truncated",
        ),
        (
            IndexError::Codec(CodecError::Version {
                kind: "range",
                version: 9,
            }),
            "unsupported range format version 9",
        ),
        (
            IndexError::Codec(CodecError::Length),
            "encoded count, length, or offset is invalid",
        ),
        (
            IndexError::Codec(CodecError::TrailingBytes),
            "encoded value has trailing bytes",
        ),
        (
            IndexError::Codec(CodecError::InvalidRange),
            "range must contain exactly 1000 contiguous aligned blocks",
        ),
        (
            IndexError::Codec(CodecError::RangeIndex),
            "range record index is outside 0..1000",
        ),
        (
            IndexError::Identity,
            "LMDB network, genesis hash, or fixed index policy does not match",
        ),
        (
            IndexError::StaleBatch {
                batch_generation: 12,
            },
            "write batch was built from stale index generation 12",
        ),
        (
            IndexError::IncompleteRange { start: 3_000 },
            "mutable range starting at 3000 is incomplete",
        ),
        (
            IndexError::Continuity { height: 5 },
            "LMDB compact coverage is not contiguous at height 5",
        ),
        (
            IndexError::HashIndex { height: 6 },
            "LMDB hash index does not match compact block at height 6",
        ),
        (
            IndexError::Tree(TreeError::UnexpectedRange {
                expected: 1,
                actual: 2,
            }),
            "expected range 1, got 2",
        ),
    ];
    for (error, words) in words {
        assert_eq!(error.message(), words);
    }
}
