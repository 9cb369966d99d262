use zakura_chain::block::{Block, Height};
use zakura_chain::parameters::NetworkUpgrade;
use zakura_chain::serialization::{ZcashDeserialize, ZcashSerialize};
use zakura_chain::transaction::{LockTime, Transaction};
use zakura_test::vectors::{
    BLOCK_MAINNET_1687106_BYTES, BLOCK_MAINNET_949496_BYTES, BLOCK_TESTNET_1842421_BYTES,
};
use ztreamer::parser::{
    parse_block, parse_transaction, CompactParseError, CompactSaplingOutput, CompactShieldedAction,
    CompactTransaction, RawIndexBlock, RawIndexTransaction, TransactionParseError,
    MAX_TRANSACTION_BYTES,
};

fn raw(bytes: Vec<u8>) -> RawIndexTransaction {
    RawIndexTransaction {
        txid: [0; 32],
        bytes,
    }
}

fn error_of(bytes: Vec<u8>) -> TransactionParseError {
    parse_transaction(&raw(bytes), 0).unwrap_err()
}

fn reference(transaction: &Transaction, index: u64) -> CompactTransaction {
    let sapling_spends = transaction
        .sapling_spends_per_anchor()
        .map(|spend| spend.nullifier.into())
        .collect();
    let sapling_outputs = transaction
        .sapling_outputs()
        .map(|output| {
            let encrypted: [u8; 580] = output.enc_ciphertext.into();
            CompactSaplingOutput {
                cmu: output.cm_u.to_bytes(),
                ephemeral_key: (&output.ephemeral_key).into(),
                ciphertext: encrypted[..52].try_into().unwrap(),
            }
        })
        .collect();
    let action = |action: &zakura_chain::orchard::Action| {
        let encrypted: [u8; 580] = action.enc_ciphertext.into();
        CompactShieldedAction {
            nullifier: action.nullifier.into(),
            commitment: action.cm_x.into(),
            ephemeral_key: (&action.ephemeral_key).into(),
            ciphertext: encrypted[..52].try_into().unwrap(),
        }
    };

    CompactTransaction {
        index,
        txid: transaction.hash().0,
        sapling_spends,
        sapling_outputs,
        orchard_actions: transaction.orchard_actions().map(action).collect(),
        ironwood_actions: transaction.ironwood_actions().map(action).collect(),
    }
}

#[test]
fn selective_parser_matches_full_zakura_parse() {
    let mut saw_sapling = false;
    let mut saw_sapling_spend = false;
    let mut saw_orchard = false;

    let vectors: [&[u8]; 3] = [
        BLOCK_MAINNET_949496_BYTES.as_ref(),
        BLOCK_MAINNET_1687106_BYTES.as_ref(),
        BLOCK_TESTNET_1842421_BYTES.as_ref(),
    ];
    for bytes in vectors {
        let block = Block::zcash_deserialize(bytes).unwrap();
        for (index, transaction) in block.transactions.iter().enumerate() {
            let bytes = transaction.zcash_serialize_to_vec().unwrap();
            let raw = RawIndexTransaction {
                txid: transaction.hash().0,
                bytes,
            };
            let actual = parse_transaction(&raw, index as u64).unwrap();
            let expected = reference(transaction, index as u64);
            saw_sapling |= !expected.sapling_outputs.is_empty();
            saw_sapling_spend |= !expected.sapling_spends.is_empty();
            saw_orchard |= !expected.orchard_actions.is_empty();
            assert_eq!(actual, expected);
        }
    }

    assert!(saw_sapling && saw_sapling_spend && saw_orchard);
}

#[test]
fn v6_keeps_orchard_and_ironwood_separate() {
    let bytes: &[u8] = BLOCK_TESTNET_1842421_BYTES.as_ref();
    let block = Block::zcash_deserialize(bytes).unwrap();
    let shielded = block
        .transactions
        .iter()
        .find_map(|transaction| transaction.orchard_shielded_data().cloned())
        .unwrap();
    let transaction = Transaction::V6 {
        network_upgrade: NetworkUpgrade::Nu6_3,
        lock_time: LockTime::unlocked(),
        expiry_height: Height(1),
        inputs: Vec::new(),
        outputs: Vec::new(),
        sapling_shielded_data: None,
        orchard_shielded_data: Some(shielded.clone()),
        ironwood_shielded_data: Some(shielded),
    };
    let bytes = transaction.zcash_serialize_to_vec().unwrap();
    let parsed = Transaction::zcash_deserialize(bytes.as_slice()).unwrap();
    let raw = RawIndexTransaction {
        txid: parsed.hash().0,
        bytes,
    };

    assert_eq!(parse_transaction(&raw, 0).unwrap(), reference(&parsed, 0));
}

#[test]
fn malformed_lengths_are_bounded() {
    let mut bytes = vec![1, 0, 0, 0, 0xff];
    bytes.extend_from_slice(&u64::MAX.to_le_bytes());
    let raw = RawIndexTransaction {
        txid: [0; 32],
        bytes,
    };
    assert!(matches!(
        parse_transaction(&raw, 0),
        Err(TransactionParseError::LengthLimit { .. })
    ));
}

#[test]
fn every_error_names_its_place() {
    assert_eq!(
        error_of(vec![0; MAX_TRANSACTION_BYTES + 1]),
        TransactionParseError::TooLarge
    );
    assert_eq!(
        error_of(vec![1, 0]),
        TransactionParseError::Truncated { offset: 0 }
    );
    assert_eq!(
        error_of(vec![1, 0, 0, 0]),
        TransactionParseError::Truncated { offset: 4 }
    );
    assert_eq!(
        error_of(vec![1, 0, 0, 0, 0xfd, 0xfc, 0]),
        TransactionParseError::NonCanonicalCompactSize { offset: 4 }
    );
    assert_eq!(
        error_of(vec![1, 0, 0, 0, 0xfe, 0xff, 0xff, 0, 0]),
        TransactionParseError::NonCanonicalCompactSize { offset: 4 }
    );
    assert_eq!(
        error_of(vec![1, 0, 0, 0, 0xfe, 0, 0, 1, 0]),
        TransactionParseError::LengthLimit { offset: 4 }
    );
    assert_eq!(
        error_of(vec![7, 0, 0, 0]),
        TransactionParseError::UnsupportedHeader { header: 7 }
    );
    assert_eq!(
        error_of(vec![3, 0, 0, 0]),
        TransactionParseError::UnsupportedHeader { header: 3 }
    );
    assert_eq!(
        error_of(vec![4, 0, 0, 0x80, 1, 0, 0, 0]),
        TransactionParseError::VersionGroup {
            actual: 1,
            expected: 0x892f_2085
        }
    );
    assert_eq!(
        error_of(vec![1, 0, 0, 0, 0, 0, 0, 0, 0, 0, 9]),
        TransactionParseError::TrailingBytes { offset: 10 }
    );
}

#[test]
fn transparent_parts_are_skipped() {
    let mut bytes = vec![1, 0, 0, 0, 1];
    bytes.extend_from_slice(&[7; 36]);
    bytes.extend_from_slice(&[2, 0xaa, 0xbb]);
    bytes.extend_from_slice(&[1; 4]);
    bytes.push(1);
    bytes.extend_from_slice(&[2; 8]);
    bytes.extend_from_slice(&[1, 0xcc]);
    bytes.extend_from_slice(&[0; 4]);
    let parsed = parse_transaction(&raw(bytes), 5).unwrap();
    assert_eq!(parsed.index, 5);
    assert!(!parsed.has_payload());
}

fn raw_block(transactions: Vec<RawIndexTransaction>) -> RawIndexBlock {
    let mut header = vec![0; 140];
    header[4..36].copy_from_slice(&[9; 32]);
    header[100..104].copy_from_slice(&77u32.to_le_bytes());
    RawIndexBlock {
        height: 12,
        hash: [8; 32],
        header,
        transactions,
    }
}

#[test]
fn blocks_keep_shielded_transactions_and_count_commitments() {
    let bytes: &[u8] = BLOCK_TESTNET_1842421_BYTES.as_ref();
    let block = Block::zcash_deserialize(bytes).unwrap();
    let transactions: Vec<RawIndexTransaction> = block
        .transactions
        .iter()
        .map(|transaction| RawIndexTransaction {
            txid: transaction.hash().0,
            bytes: transaction.zcash_serialize_to_vec().unwrap(),
        })
        .collect();
    let expected: Vec<CompactTransaction> = block
        .transactions
        .iter()
        .enumerate()
        .map(|(index, transaction)| reference(transaction, index as u64))
        .filter(|compact| compact.has_payload())
        .collect();
    let orchard: usize = expected.iter().map(|compact| compact.orchard_actions.len()).sum();
    let sapling: usize = expected.iter().map(|compact| compact.sapling_outputs.len()).sum();

    let prepared = parse_block(&raw_block(transactions)).unwrap();
    assert_eq!(prepared.height, 12);
    assert_eq!(prepared.hash, [8; 32]);
    assert_eq!(prepared.previous_hash, [9; 32]);
    assert_eq!(prepared.time, 77);
    assert!(expected.len() < block.transactions.len());
    assert_eq!(prepared.transactions, expected);
    assert_eq!(prepared.orchard_additions as usize, orchard);
    assert_eq!(prepared.sapling_additions as usize, sapling);
    assert_eq!(prepared.ironwood_additions, 0);
}

#[test]
fn bad_blocks_name_their_height() {
    let mut short = raw_block(Vec::new());
    short.header.truncate(103);
    assert_eq!(
        parse_block(&short),
        Err(CompactParseError::TruncatedHeader { height: 12 })
    );
    let bad = raw_block(vec![
        raw(vec![1, 0, 0, 0, 0, 0, 0, 0, 0, 0]),
        raw(vec![7, 0, 0, 0]),
    ]);
    assert_eq!(
        parse_block(&bad),
        Err(CompactParseError::Transaction {
            height: 12,
            index: 1,
            source: TransactionParseError::UnsupportedHeader { header: 7 }
        })
    );
}

fn put(bytes: &mut Vec<u8>, byte: u8, len: usize) {
    bytes.extend(vec![byte; len]);
}

fn put_transparent(bytes: &mut Vec<u8>) {
    bytes.push(2);
    for script in [0, 3] {
        put(bytes, 0xa1, 36);
        bytes.push(script);
        put(bytes, 0xa2, usize::from(script));
        put(bytes, 0xa3, 4);
    }
    bytes.push(1);
    put(bytes, 0xa4, 8);
    bytes.push(1);
    put(bytes, 0xa5, 1);
}

fn put_joinsplits(bytes: &mut Vec<u8>, count: u8, size: usize) {
    bytes.push(count);
    put(bytes, 0xb1, usize::from(count) * size);
    if count > 0 {
        put(bytes, 0xb2, 96);
    }
}

fn put_sapling_output(bytes: &mut Vec<u8>, output: u8) {
    put(bytes, 0xc1, 32);
    put(bytes, output, 32);
    put(bytes, output + 1, 32);
    put(bytes, output + 2, 52);
    put(bytes, 0xc2, 580 - 52 + 80);
}

fn put_sapling_v4(bytes: &mut Vec<u8>) {
    bytes.push(2);
    for spend in [10, 11] {
        put(bytes, 0xd1, 64);
        put(bytes, spend, 32);
        put(bytes, 0xd2, 32 + 192 + 64);
    }
    bytes.push(2);
    for output in [20, 30] {
        put_sapling_output(bytes, output);
        put(bytes, 0xd3, 192);
    }
    put_joinsplits(bytes, 1, 1698);
    put(bytes, 0xd4, 64);
}

fn put_sapling_v5(bytes: &mut Vec<u8>) {
    bytes.push(2);
    for spend in [10, 11] {
        put(bytes, 0xd1, 32);
        put(bytes, spend, 32);
        put(bytes, 0xd2, 32);
    }
    bytes.push(2);
    for output in [20, 30] {
        put_sapling_output(bytes, output);
    }
    put(bytes, 0xd3, 8 + 32 + 2 * 192 + 2 * 64 + 2 * 192 + 64);
}

fn put_actions(bytes: &mut Vec<u8>, actions: &[u8]) {
    bytes.push(actions.len() as u8);
    for action in actions {
        put(bytes, 0xe1, 32);
        put(bytes, *action, 32);
        put(bytes, 0xe2, 32);
        put(bytes, action + 1, 32);
        put(bytes, action + 2, 32);
        put(bytes, action + 3, 52);
        put(bytes, 0xe3, 580 - 52 + 80);
    }
    if !actions.is_empty() {
        put(bytes, 0xe4, 1 + 8 + 32);
        bytes.extend_from_slice(&[0xfd, 0x00, 0x01]);
        put(bytes, 0xe5, 256);
        put(bytes, 0xe6, 64 * actions.len() + 64);
    }
}

fn serialized(version: u8) -> Vec<u8> {
    let mut bytes = vec![version, 0, 0, if version > 2 { 0x80 } else { 0 }];
    match version {
        1 | 2 => {
            put_transparent(&mut bytes);
            put(&mut bytes, 0xf1, 4);
        }
        3 | 4 => {
            let group: u32 = if version == 3 { 0x03c4_8270 } else { 0x892f_2085 };
            bytes.extend_from_slice(&group.to_le_bytes());
            put_transparent(&mut bytes);
            put(&mut bytes, 0xf1, if version == 3 { 8 } else { 16 });
        }
        _ => {
            let group: u32 = if version == 5 { 0x26a7_270a } else { 0xd884_b698 };
            bytes.extend_from_slice(&group.to_le_bytes());
            put(&mut bytes, 0xf1, 12);
            put_transparent(&mut bytes);
        }
    }
    match version {
        1 => {}
        2 => put_joinsplits(&mut bytes, 0, 1802),
        3 => put_joinsplits(&mut bytes, 2, 1802),
        4 => put_sapling_v4(&mut bytes),
        5 => {
            put_sapling_v5(&mut bytes);
            put_actions(&mut bytes, &[40, 50]);
        }
        _ => {
            put_sapling_v5(&mut bytes);
            put_actions(&mut bytes, &[]);
            put_actions(&mut bytes, &[60, 70, 80]);
        }
    }
    bytes
}

fn read_action(byte: u8) -> CompactShieldedAction {
    CompactShieldedAction {
        nullifier: [byte; 32],
        commitment: [byte + 1; 32],
        ephemeral_key: [byte + 2; 32],
        ciphertext: [byte + 3; 52],
    }
}

#[test]
fn every_version_is_read_back() {
    for version in 1..=6 {
        let sapling = version >= 4;
        let outputs: &[u8] = if sapling { &[20, 30] } else { &[] };
        let orchard: &[u8] = if version == 5 { &[40, 50] } else { &[] };
        let ironwood: &[u8] = if version == 6 { &[60, 70, 80] } else { &[] };
        let expected = CompactTransaction {
            index: 3,
            txid: [0; 32],
            sapling_spends: if sapling {
                vec![[10; 32], [11; 32]]
            } else {
                Vec::new()
            },
            sapling_outputs: outputs
                .iter()
                .map(|output| CompactSaplingOutput {
                    cmu: [*output; 32],
                    ephemeral_key: [output + 1; 32],
                    ciphertext: [output + 2; 52],
                })
                .collect(),
            orchard_actions: orchard.iter().copied().map(read_action).collect(),
            ironwood_actions: ironwood.iter().copied().map(read_action).collect(),
        };
        assert_eq!(parse_transaction(&raw(serialized(version)), 3), Ok(expected));
    }
}

#[test]
fn cut_transactions_are_truncated_and_longer_ones_trail() {
    for version in 1..=6 {
        let whole = serialized(version);
        for len in 0..whole.len() {
            assert!(matches!(
                error_of(whole[..len].to_vec()),
                TransactionParseError::Truncated { .. }
            ));
        }
        let mut longer = whole.clone();
        longer.extend_from_slice(&[0, 1]);
        assert_eq!(
            error_of(longer),
            TransactionParseError::TrailingBytes {
                offset: whole.len()
            }
        );
    }
}

#[test]
fn parse_errors_read_as_sentences() {
    let words = [
        (
            TransactionParseError::TooLarge,
            "transaction is larger than 2000000 bytes",
        ),
        (
            TransactionParseError::Truncated { offset: 4 },
            "truncated transaction at byte 4",
        ),
        (
            TransactionParseError::NonCanonicalCompactSize { offset: 10 },
            "non-canonical CompactSize at byte 10",
        ),
        (
            TransactionParseError::LengthLimit { offset: 7 },
            "count or length at byte 7 exceeds its bound",
        ),
        (
            TransactionParseError::UnsupportedHeader { header: 7 },
            "unsupported transaction header 0x00000007",
        ),
        (
            TransactionParseError::VersionGroup {
                actual: 0xfedc_ba98,
                expected: 0x892f_2085,
            },
            "wrong version group ID 0xfedcba98, expected 0x892f2085",
        ),
        (
            TransactionParseError::TrailingBytes { offset: 100 },
            "trailing bytes at byte 100",
        ),
    ];
    for (error, words) in words {
        assert_eq!(error.message(), words);
    }
    assert_eq!(
        CompactParseError::TruncatedHeader { height: 12 }.message(),
        "block 12 has a truncated header"
    );
    assert_eq!(
        CompactParseError::Transaction {
            height: 12,
            index: 1,
            source: TransactionParseError::Truncated { offset: 0 },
        }
        .message(),
        "block 12 transaction 1: truncated transaction at byte 0"
    );
    assert_eq!(
        CompactParseError::CommitmentCount { height: 9 }.message(),
        "block 9 commitment count exceeds u32"
    );
}
