use std::collections::BTreeMap;
use std::io::Cursor;

use zakura_chain::orchard::tree as orchard;
use zakura_chain::sapling::tree as sapling;
use zakura_chain::serialization::ZcashDeserialize;
use ztreamer::codec::{CompactBlockRecord, TreeSizes};
use ztreamer::index::IndexError;
use ztreamer::indexer::tree::{
    append_orchard, append_sapling, commitments, Anchor, TreeCounts, TreeError, Worker,
};
use ztreamer::parser::{CompactSaplingOutput, CompactShieldedAction, CompactTransaction};

fn small(value: u64) -> [u8; 32] {
    let mut bytes = [0; 32];
    bytes[..8].copy_from_slice(&value.to_le_bytes());
    bytes
}

fn output(cmu: [u8; 32]) -> CompactSaplingOutput {
    CompactSaplingOutput {
        cmu,
        ephemeral_key: [2; 32],
        ciphertext: [3; 52],
    }
}

fn action(commitment: [u8; 32]) -> CompactShieldedAction {
    CompactShieldedAction {
        nullifier: [4; 32],
        commitment,
        ephemeral_key: [5; 32],
        ciphertext: [6; 52],
    }
}

fn transaction(
    sapling: &[[u8; 32]],
    orchard: &[[u8; 32]],
    ironwood: &[[u8; 32]],
) -> CompactTransaction {
    CompactTransaction {
        index: 1,
        txid: [7; 32],
        sapling_spends: Vec::new(),
        sapling_outputs: sapling.iter().copied().map(output).collect(),
        orchard_actions: orchard.iter().copied().map(action).collect(),
        ironwood_actions: ironwood.iter().copied().map(action).collect(),
    }
}

fn block(height: u32, transactions: Vec<CompactTransaction>) -> CompactBlockRecord {
    CompactBlockRecord {
        height,
        hash: small(u64::from(height)),
        previous_hash: [0; 32],
        time: height,
        end_tree_sizes: TreeSizes {
            sapling: 0,
            orchard: 0,
            ironwood: 0,
        },
        header: Vec::new(),
        transactions,
    }
}

fn range(start: u32) -> Vec<CompactBlockRecord> {
    (start..start + 1_000)
        .map(|height| block(height, Vec::new()))
        .collect()
}

#[test]
fn bulk_append_matches_sequential_append() {
    let commitments = (1u64..=64)
        .map(|value| {
            let mut bytes = [0; 32];
            bytes[..8].copy_from_slice(&value.to_le_bytes());
            sapling::NoteCommitmentUpdate::zcash_deserialize(Cursor::new(bytes)).unwrap()
        })
        .collect::<Vec<_>>();
    let mut sequential = sapling::NoteCommitmentTree::default();
    for commitment in &commitments {
        sequential.append(*commitment).unwrap();
    }
    let mut bulk = sapling::NoteCommitmentTree::default();
    append_sapling(&mut bulk, &commitments).unwrap();
    assert_eq!(bulk.to_rpc_bytes(), sequential.to_rpc_bytes());
}

#[test]
fn parts_append_to_the_same_tree() {
    let commitments = (1u64..=40)
        .map(|value| {
            orchard::NoteCommitmentUpdate::zcash_deserialize(Cursor::new(small(value))).unwrap()
        })
        .collect::<Vec<_>>();
    let mut whole = orchard::NoteCommitmentTree::default();
    append_orchard(&mut whole, &commitments).unwrap();
    let mut parts = orchard::NoteCommitmentTree::default();
    append_orchard(&mut parts, &commitments[..17]).unwrap();
    append_orchard(&mut parts, &[]).unwrap();
    append_orchard(&mut parts, &commitments[17..]).unwrap();
    assert_eq!(parts.position(), Some(39));
    assert_eq!(parts.to_rpc_bytes(), whole.to_rpc_bytes());
}

#[test]
fn blocks_feed_the_three_trees() {
    let blocks = [
        block(
            0,
            vec![
                transaction(&[small(1), small(2)], &[small(3)], &[]),
                transaction(&[], &[], &[small(4)]),
            ],
        ),
        block(1, vec![transaction(&[small(5)], &[small(6)], &[small(7)])]),
    ];
    let mut whole = Anchor::default();
    whole.append_blocks(&blocks).unwrap();
    assert_eq!(whole.hash(), [0; 32]);
    assert_eq!(whole.sapling.position(), Some(2));
    assert_eq!(whole.orchard.position(), Some(1));
    assert_eq!(whole.ironwood.position(), Some(1));

    let mut parts = Anchor::default();
    parts.append_blocks(&blocks[..1]).unwrap();
    parts.append_blocks(&blocks[1..]).unwrap();

    let mut sequential = orchard::NoteCommitmentTree::default();
    for value in [4, 7] {
        sequential
            .append(
                orchard::NoteCommitmentUpdate::zcash_deserialize(Cursor::new(small(value)))
                    .unwrap(),
            )
            .unwrap();
    }
    let result = whole.into_result();
    assert_eq!(result.ironwood, sequential.to_rpc_bytes());
    assert_ne!(result.ironwood, result.orchard);
    assert_eq!(result, parts.into_result());
}

#[test]
fn empty_trees_are_three_zero_bytes() {
    let result = Anchor::default().into_result();
    assert_eq!(result.sapling, [0, 0, 0]);
    assert_eq!(result.orchard, [0, 0, 0]);
    assert_eq!(result.ironwood, [0, 0, 0]);
}

#[test]
fn commitments_follow_the_chosen_pool() {
    let blocks = [block(
        0,
        vec![transaction(&[], &[small(1), small(2)], &[small(3)])],
    )];
    assert_eq!(commitments(&blocks, false).unwrap().len(), 2);
    assert_eq!(commitments(&blocks, true).unwrap().len(), 1);
    assert!(commitments(&[], true).unwrap().is_empty());
}

#[test]
fn commitments_outside_the_field_are_refused() {
    let mut anchor = Anchor::default();
    assert_eq!(
        anchor.append_blocks(&[block(0, vec![transaction(&[[255; 32]], &[small(1)], &[])])]),
        Err(IndexError::Tree(TreeError::SaplingCommitment))
    );
    assert_eq!(anchor.sapling.position(), None);
    assert_eq!(anchor.orchard.position(), Some(0));
    assert_eq!(
        anchor.append_blocks(&[block(0, vec![transaction(&[], &[], &[[255; 32]])])]),
        Err(IndexError::Tree(TreeError::OrchardCommitment))
    );

    let mut sapling_modulus = [
        0x01, 0, 0, 0, 0xff, 0xff, 0xff, 0xff, 0xfe, 0x5b, 0xfe, 0xff, 0x02, 0xa4, 0xbd, 0x53, 0x05,
        0xd8, 0xa1, 0x09, 0x08, 0xd8, 0x39, 0x33, 0x48, 0x7d, 0x9d, 0x29, 0x53, 0xa7, 0xed, 0x73,
    ];
    assert!(Anchor::default()
        .append_blocks(&[block(0, vec![transaction(&[sapling_modulus], &[], &[])])])
        .is_err());
    sapling_modulus[0] = 0;
    assert!(Anchor::default()
        .append_blocks(&[block(0, vec![transaction(&[sapling_modulus], &[], &[])])])
        .is_ok());

    let mut orchard_modulus = [
        0x01, 0, 0, 0, 0xed, 0x30, 0x2d, 0x99, 0x1b, 0xf9, 0x4c, 0x09, 0xfc, 0x98, 0x46, 0x22, 0, 0,
        0, 0, 0, 0, 0, 0, 0, 0, 0, 0, 0, 0, 0, 0x40,
    ];
    assert!(commitments(
        &[block(0, vec![transaction(&[], &[orchard_modulus], &[])])],
        false
    )
    .is_err());
    orchard_modulus[0] = 0;
    assert!(commitments(
        &[block(0, vec![transaction(&[], &[orchard_modulus], &[])])],
        false
    )
    .is_ok());
}

#[test]
fn words_are_those_of_the_trees() {
    let invalid = sapling::NoteCommitmentUpdate::zcash_deserialize(Cursor::new([255; 32]));
    assert_eq!(
        TreeError::SaplingCommitment.message(),
        invalid.unwrap_err().to_string()
    );
    let invalid = orchard::NoteCommitmentUpdate::zcash_deserialize(Cursor::new([255; 32]));
    assert_eq!(
        TreeError::OrchardCommitment.message(),
        invalid.unwrap_err().to_string()
    );
    assert_eq!(
        TreeError::Full.message(),
        sapling::NoteCommitmentTreeError::FullTree.to_string()
    );
    assert_eq!(
        TreeError::UnexpectedRange {
            expected: 1_000,
            actual: 20
        }
        .message(),
        "expected range 1000, got 20"
    );
}

#[test]
fn worker_takes_ranges_in_order() {
    let mut worker = Worker::new(None, Anchor::default());
    let mut first = range(0);
    first[500]
        .transactions
        .push(transaction(&[small(1)], &[], &[]));
    assert_eq!(worker.range(&first), Ok(Some(999)));
    assert_eq!(worker.anchor().hash(), small(999));
    assert_eq!(worker.anchor_height(), None);
    worker.stored(999);
    assert_eq!(worker.anchor_height(), Some(999));
    assert_eq!(worker.anchor().sapling.position(), Some(0));

    assert_eq!(worker.range(&first), Ok(None));
    assert_eq!(
        worker.range(&range(2_000)),
        Err(IndexError::Tree(TreeError::UnexpectedRange {
            expected: 1_000,
            actual: 2_000
        }))
    );
    assert_eq!(worker.range(&[]), Err(IndexError::Metadata));
    assert_eq!(
        worker.range(&range(1_000)[1..]),
        Err(IndexError::IncompleteRange { start: 1_001 })
    );
    let mut jumping = range(1_000);
    jumping[999].height = 5;
    assert_eq!(
        worker.range(&jumping),
        Err(IndexError::IncompleteRange { start: 1_000 })
    );
    assert_eq!(worker.range(&range(1_000)), Ok(Some(1_999)));
    worker.stored(1_999);
    assert_eq!(
        worker.report(),
        Ok(TreeCounts {
            jobs: 2,
            blocks: 2_000
        })
    );
}

#[test]
fn failed_worker_waits_for_a_reset() {
    let mut worker = Worker::new(Some(999), Anchor::default());
    assert!(worker.takes_ranges());
    worker.fail("disk full".to_owned());
    assert!(!worker.takes_ranges());
    assert_eq!(worker.report(), Err("disk full".to_owned()));

    assert_eq!(worker.begin_reset(3_000), Some(2_999));
    let mut stored = Anchor::default();
    stored
        .append_blocks(&[block(0, vec![transaction(&[small(9)], &[], &[])])])
        .unwrap();
    worker.finish_reset(Some(stored));
    assert!(worker.takes_ranges());
    assert_eq!(worker.anchor_height(), Some(2_999));
    assert_eq!(worker.anchor().sapling.position(), Some(0));
    assert_eq!(
        worker.report(),
        Ok(TreeCounts { jobs: 0, blocks: 0 })
    );

    assert_eq!(worker.begin_reset(0), None);
    worker.finish_reset(None);
    assert_eq!(worker.anchor().sapling.position(), None);
    assert_eq!(worker.range(&range(0)), Ok(Some(999)));
}

#[test]
fn reset_discards_the_ranges_behind_it() {
    let marked = |start: u32, value: u64| {
        let mut blocks = range(start);
        blocks[500]
            .transactions
            .push(transaction(&[small(value)], &[], &[]));
        blocks[999].hash = small(value);
        blocks
    };
    let tree = |values: &[u64]| {
        let mut anchor = Anchor::default();
        for value in values {
            anchor
                .append_blocks(&[block(0, vec![transaction(&[small(*value)], &[], &[])])])
                .unwrap();
        }
        anchor.into_result()
    };
    let copy = |anchor: &Anchor| Anchor {
        hash: anchor.hash,
        sapling: anchor.sapling.clone(),
        orchard: anchor.orchard.clone(),
        ironwood: anchor.ironwood.clone(),
    };
    let mut anchors = BTreeMap::new();
    let mut worker = Worker::new(None, Anchor::default());
    for blocks in [marked(0, 1), marked(1_000, 2)] {
        let end = worker.range(&blocks).unwrap().unwrap();
        anchors.insert(end, copy(worker.anchor()));
        worker.stored(end);
    }
    let height = worker.begin_reset(1_000).unwrap();
    worker.finish_reset(anchors.get(&height).map(copy));
    let end = worker.range(&marked(1_000, 3)).unwrap().unwrap();
    anchors.insert(end, copy(worker.anchor()));
    worker.stored(end);

    assert_eq!(
        worker.report(),
        Ok(TreeCounts {
            jobs: 3,
            blocks: 3_000
        })
    );
    assert_eq!(anchors[&999].hash(), small(1));
    assert_eq!(copy(&anchors[&999]).into_result(), tree(&[1]));
    assert_eq!(anchors[&1_999].hash(), small(3));
    assert_eq!(copy(&anchors[&1_999]).into_result(), tree(&[1, 3]));
}

#[test]
fn anchors_at_the_last_height_skip_every_range() {
    let mut worker = Worker::new(Some(u32::MAX), Anchor::default());
    assert_eq!(worker.range(&range(5_000)), Ok(None));
}
