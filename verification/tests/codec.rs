use ztreamer::codec::{
    decode_range_record, encode_range, encoded_record_len, CodecError, CompactBlockRecord,
    TreeSizes, MAX_RECORD_BYTES,
};
use ztreamer::index::RANGE_SIZE;
use ztreamer::parser::{CompactSaplingOutput, CompactShieldedAction, CompactTransaction};

fn action(byte: u8) -> CompactShieldedAction {
    CompactShieldedAction {
        nullifier: [byte; 32],
        commitment: [byte; 32],
        ephemeral_key: [byte; 32],
        ciphertext: [byte; 52],
    }
}

fn hash(height: u32) -> [u8; 32] {
    let mut hash = [0; 32];
    hash[..4].copy_from_slice(&height.to_be_bytes());
    hash
}

fn full_transaction() -> CompactTransaction {
    CompactTransaction {
        index: 2,
        txid: [3; 32],
        sapling_spends: vec![[4; 32]],
        sapling_outputs: vec![CompactSaplingOutput {
            cmu: [5; 32],
            ephemeral_key: [6; 32],
            ciphertext: [7; 52],
        }],
        orchard_actions: vec![action(8)],
        ironwood_actions: vec![action(9)],
    }
}

fn empty_record(height: u32, previous_hash: [u8; 32]) -> CompactBlockRecord {
    CompactBlockRecord {
        height,
        hash: hash(height),
        previous_hash,
        time: height,
        header: Vec::new(),
        transactions: Vec::new(),
        end_tree_sizes: TreeSizes::default(),
    }
}

fn range_from(start: u32) -> Vec<CompactBlockRecord> {
    let mut records = vec![empty_record(start, [0xee; 32])];
    for height in start + 1..start + RANGE_SIZE {
        let previous_hash = records.last().unwrap().hash;
        records.push(empty_record(height, previous_hash));
    }
    records
}

#[test]
fn block_and_range_round_trip() {
    let transaction = CompactTransaction {
        index: 2,
        txid: [3; 32],
        sapling_spends: vec![[4; 32]],
        sapling_outputs: vec![CompactSaplingOutput {
            cmu: [5; 32],
            ephemeral_key: [6; 32],
            ciphertext: [7; 52],
        }],
        orchard_actions: vec![action(8)],
        ironwood_actions: vec![action(9)],
    };
    let first = CompactBlockRecord {
        height: 0,
        hash: [1; 32],
        previous_hash: [0; 32],
        time: 10,
        header: vec![11; 140],
        transactions: vec![transaction],
        end_tree_sizes: TreeSizes {
            sapling: 1,
            orchard: 1,
            ironwood: 1,
        },
    };
    assert_eq!(
        CompactBlockRecord::decode(&first.encode().unwrap()).unwrap(),
        first
    );

    let mut records = vec![first];
    for height in 1..RANGE_SIZE {
        let previous_hash = records.last().unwrap().hash;
        records.push(CompactBlockRecord {
            height,
            hash: hash(height),
            previous_hash,
            time: height,
            header: Vec::new(),
            transactions: Vec::new(),
            end_tree_sizes: TreeSizes::default(),
        });
    }
    let encoded = encode_range(&records).unwrap();
    assert_eq!(decode_range_record(&encoded, 0).unwrap(), records[0]);
    assert_eq!(decode_range_record(&encoded, 537).unwrap(), records[537]);
    assert_eq!(decode_range_record(&encoded, 999).unwrap(), records[999]);
}

#[test]
fn record_bytes_are_laid_out_in_order() {
    let record = CompactBlockRecord {
        height: 0x0102_0304,
        hash: [0xaa; 32],
        previous_hash: [0xbb; 32],
        time: 0x0506_0708,
        header: vec![0xcc, 0xdd],
        transactions: Vec::new(),
        end_tree_sizes: TreeSizes {
            sapling: 1,
            orchard: 2,
            ironwood: 3,
        },
    };
    let mut expected = vec![1, 1, 2, 3, 4];
    expected.extend_from_slice(&[0xaa; 32]);
    expected.extend_from_slice(&[0xbb; 32]);
    expected.extend_from_slice(&[5, 6, 7, 8, 0, 0, 0, 1, 0, 0, 0, 2, 0, 0, 0, 3]);
    expected.extend_from_slice(&[0, 0, 0, 2, 0, 0, 0, 0, 0xcc, 0xdd]);
    assert_eq!(record.encode().unwrap(), expected);
}

#[test]
fn lengths_count_every_part() {
    assert_eq!(encoded_record_len(0, &[]), Ok(93));
    let transaction = full_transaction();
    assert_eq!(
        encoded_record_len(140, &[transaction]),
        Ok(93 + 140 + 56 + 32 + 116 + 148 + 148)
    );
    assert_eq!(
        encoded_record_len(MAX_RECORD_BYTES - 93, &[]),
        Ok(MAX_RECORD_BYTES)
    );
    assert_eq!(
        encoded_record_len(MAX_RECORD_BYTES - 92, &[]),
        Err(CodecError::Length)
    );
    assert_eq!(encoded_record_len(usize::MAX, &[]), Err(CodecError::Length));
}

#[test]
fn oversized_records_are_not_encoded() {
    let mut record = empty_record(0, [0; 32]);
    record.header = vec![0; MAX_RECORD_BYTES];
    assert_eq!(record.encode(), Err(CodecError::Length));
}

#[test]
fn bad_record_bytes_are_refused() {
    let good = {
        let mut record = empty_record(7, [1; 32]);
        record.transactions = vec![full_transaction()];
        record.encode().unwrap()
    };
    assert_eq!(CompactBlockRecord::decode(&[]), Err(CodecError::Truncated));
    let mut wrong_version = good.clone();
    wrong_version[0] = 9;
    assert_eq!(
        CompactBlockRecord::decode(&wrong_version),
        Err(CodecError::Version {
            kind: "block",
            version: 9
        })
    );
    assert_eq!(
        CompactBlockRecord::decode(&good[..good.len() - 1]),
        Err(CodecError::Truncated)
    );
    assert_eq!(
        CompactBlockRecord::decode(&good[..50]),
        Err(CodecError::Truncated)
    );
    let mut trailing = good.clone();
    trailing.push(0);
    assert_eq!(
        CompactBlockRecord::decode(&trailing),
        Err(CodecError::TrailingBytes)
    );
    assert_eq!(
        CompactBlockRecord::decode(&vec![1; MAX_RECORD_BYTES + 1]),
        Err(CodecError::Length)
    );
    let mut too_many = good.clone();
    too_many[89..93].copy_from_slice(&u32::MAX.to_be_bytes());
    assert_eq!(
        CompactBlockRecord::decode(&too_many),
        Err(CodecError::Truncated)
    );
    assert_eq!(
        CompactBlockRecord::decode(&good).unwrap().encode().unwrap(),
        good
    );
}

#[test]
fn only_aligned_linked_ranges_are_encoded() {
    let records = range_from(3_000);
    let encoded = encode_range(&records).unwrap();
    assert_eq!(decode_range_record(&encoded, 999).unwrap().height, 3_999);

    assert_eq!(
        encode_range(&records[..999]),
        Err(CodecError::InvalidRange)
    );
    assert_eq!(
        encode_range(&range_from(3_001)),
        Err(CodecError::InvalidRange)
    );
    let mut broken = range_from(3_000);
    broken[500].previous_hash = [0; 32];
    assert_eq!(encode_range(&broken), Err(CodecError::InvalidRange));
    let mut skipped = range_from(3_000);
    skipped[500].height += 1;
    assert_eq!(encode_range(&skipped), Err(CodecError::InvalidRange));
    let mut oversized = range_from(3_000);
    oversized[3].header = vec![0; MAX_RECORD_BYTES];
    assert_eq!(encode_range(&oversized), Err(CodecError::Length));
}

#[test]
fn bad_range_bytes_are_refused() {
    let encoded = encode_range(&range_from(0)).unwrap();
    assert_eq!(
        decode_range_record(&encoded, 1_000),
        Err(CodecError::RangeIndex)
    );
    assert_eq!(decode_range_record(&[], 0), Err(CodecError::Truncated));
    assert_eq!(
        decode_range_record(&encoded[..4_076], 0),
        Err(CodecError::Truncated)
    );
    let mut version = encoded.clone();
    version[0] = 2;
    assert_eq!(
        decode_range_record(&version, 0),
        Err(CodecError::Version {
            kind: "range",
            version: 2
        })
    );
    let mut misaligned = encoded.clone();
    misaligned[4] = 1;
    assert_eq!(
        decode_range_record(&misaligned, 0),
        Err(CodecError::InvalidRange)
    );
    let mut first_offset = encoded.clone();
    first_offset[76] = 1;
    assert_eq!(
        decode_range_record(&first_offset, 0),
        Err(CodecError::Length)
    );
    let mut longer = encoded.clone();
    longer.push(0);
    assert_eq!(decode_range_record(&longer, 0), Err(CodecError::Length));
    let mut parent = encoded.clone();
    parent[9] ^= 1;
    assert_eq!(
        decode_range_record(&parent, 0),
        Err(CodecError::InvalidRange)
    );
    assert!(decode_range_record(&parent, 1).is_ok());
    let mut terminal = encoded.clone();
    terminal[41] ^= 1;
    assert_eq!(
        decode_range_record(&terminal, 999),
        Err(CodecError::InvalidRange)
    );
    assert!(decode_range_record(&terminal, 998).is_ok());
    let mut envelope = encoded;
    envelope[4_080] -= 1;
    assert_eq!(
        decode_range_record(&envelope, 0),
        Err(CodecError::Truncated)
    );
}

#[test]
fn cut_records_are_truncated_and_longer_ones_trail() {
    let mut record = empty_record(7, [1; 32]);
    record.header = vec![2; 5];
    record.transactions = vec![full_transaction(), full_transaction()];
    let whole = record.encode().unwrap();
    for len in 0..whole.len() {
        assert_eq!(
            CompactBlockRecord::decode(&whole[..len]),
            Err(CodecError::Truncated)
        );
    }
    let mut longer = whole.clone();
    longer.extend_from_slice(&[0; 100]);
    assert_eq!(
        CompactBlockRecord::decode(&longer),
        Err(CodecError::TrailingBytes)
    );
    longer.resize(MAX_RECORD_BYTES + 1, 0);
    assert_eq!(CompactBlockRecord::decode(&longer), Err(CodecError::Length));
}

#[test]
fn cut_and_longer_ranges_are_refused() {
    let whole = encode_range(&range_from(2_000)).unwrap();
    for (len, error) in [
        (0, CodecError::Truncated),
        (72, CodecError::Truncated),
        (4_076, CodecError::Truncated),
        (4_077, CodecError::Length),
        (whole.len() - 1, CodecError::Length),
    ] {
        assert_eq!(decode_range_record(&whole[..len], 537), Err(error));
    }
    let mut longer = whole;
    longer.push(0);
    assert_eq!(decode_range_record(&longer, 537), Err(CodecError::Length));
}

#[test]
fn altered_range_heads_are_found() {
    let whole = encode_range(&range_from(2_000)).unwrap();
    let altered = |at: usize, byte: u8| {
        let mut range = whole.clone();
        range[at] = byte;
        range
    };
    for index in [0, 537, 999] {
        assert_eq!(
            decode_range_record(&altered(0, 7), index),
            Err(CodecError::Version {
                kind: "range",
                version: 7
            })
        );
        for at in 1..9 {
            assert_eq!(
                decode_range_record(&altered(at, whole[at] ^ 1), index),
                Err(CodecError::InvalidRange)
            );
        }
        let mut moved = whole.clone();
        moved[1..5].copy_from_slice(&3_000u32.to_be_bytes());
        moved[5..9].copy_from_slice(&3_999u32.to_be_bytes());
        assert_eq!(
            decode_range_record(&moved, index),
            Err(CodecError::InvalidRange)
        );
        for (at, watched) in [(9, 0), (40, 0), (41, 999), (72, 999)] {
            let read = decode_range_record(&altered(at, whole[at] ^ 1), index);
            if index == watched {
                assert_eq!(read, Err(CodecError::InvalidRange));
            } else {
                assert_eq!(read, decode_range_record(&whole, index));
            }
        }
    }
}
