use std::collections::BTreeMap;

use ztreamer::codec::decode_range_record;
use ztreamer::index::{
    begin_write, check_identity, decode_place, decode_state, encode_state, finish_write, identity,
    next_range, read_state, readable_place, record_place, seal_range, verify_hash_entry, BlockId, ContinuityCheck,
    IndexError, IndexState, RecordPlace, WriteBatch,
};
use ztreamer::ingest::OrderedBuilder;
use ztreamer::parser::PreparedCompactBlock;

/// The four tables, in memory.
#[derive(Clone, Default)]
struct Tables {
    identity: Option<Vec<u8>>,
    state: Option<Vec<u8>>,
    sealed_ranges: BTreeMap<u32, Vec<u8>>,
    mutable_blocks: BTreeMap<u32, Vec<u8>>,
    hash_to_height: BTreeMap<[u8; 32], u32>,
}

impl Tables {
    fn open(&mut self, network: &str, genesis_hash: [u8; 32]) -> Result<(), IndexError> {
        let identity = identity(network, genesis_hash);
        if check_identity(self.identity.as_deref(), &identity)? {
            self.identity = Some(identity);
        }
        self.verify_continuity()
    }

    fn state(&self) -> Result<IndexState, IndexError> {
        read_state(self.state.as_deref())
    }

    fn stored(&self, place: RecordPlace) -> Option<&[u8]> {
        match place {
            RecordPlace::Sealed { start, .. } => self.sealed_ranges.get(&start).map(Vec::as_slice),
            RecordPlace::Mutable { height } => self.mutable_blocks.get(&height).map(Vec::as_slice),
        }
    }

    fn verify_continuity(&self) -> Result<(), IndexError> {
        let started = ContinuityCheck::start(
            self.state()?,
            self.sealed_ranges.len() as u64,
            self.mutable_blocks.len() as u64,
            self.hash_to_height.len() as u64,
        )?;
        let Some(mut check) = started else {
            return Ok(());
        };
        for (start, bytes) in &self.sealed_ranges {
            let (first, last) = check.open_range(*start, bytes)?;
            verify_hash_entry(&first, self.hash_to_height.get(&first.hash).copied())?;
            verify_hash_entry(&last, self.hash_to_height.get(&last.hash).copied())?;
            check.close_range(&last);
        }
        check.end_ranges()?;
        for (height, bytes) in &self.mutable_blocks {
            let block = check.open_row(*height, bytes)?;
            verify_hash_entry(&block, self.hash_to_height.get(&block.hash).copied())?;
            check.close_row(&block);
        }
        check.finish(self.stored(check.tip_place()))
    }

    fn write(&mut self, batch: WriteBatch) -> Result<IndexState, IndexError> {
        let mut next = self.clone();
        let start = begin_write(self.state()?, &batch)?;
        for row in start.rows {
            next.mutable_blocks.insert(row.height, row.bytes);
            next.hash_to_height.insert(row.hash, row.height);
        }
        let mut state = start.state;
        while let Some(first) = next_range(&state, batch.source_tip().height)? {
            let rows: Vec<Option<Vec<u8>>> = (first..first + 1_000)
                .map(|height| next.mutable_blocks.get(&height).cloned())
                .collect();
            let range = seal_range(state, first, &rows)?;
            next.sealed_ranges.insert(first, range.bytes);
            for height in first..first + 1_000 {
                next.mutable_blocks.remove(&height);
            }
            state = range.state;
        }
        let (state, bytes) = finish_write(state)?;
        next.state = Some(bytes);
        *self = next;
        Ok(state)
    }
}

fn batch(
    tables: &Tables,
    heights: std::ops::RangeInclusive<u32>,
    source_tip: u32,
) -> WriteBatch {
    let mut builder = OrderedBuilder::new(tables.state().unwrap(), 10 * 1024 * 1024).unwrap();
    for height in heights {
        builder.push(prepared(height)).unwrap();
    }
    builder
        .build_batch(
            BlockId::new(source_tip, hash(source_tip)),
            10 * 1024 * 1024,
        )
        .unwrap()
        .unwrap()
}

fn prepared(height: u32) -> PreparedCompactBlock {
    PreparedCompactBlock {
        height,
        hash: hash(height),
        previous_hash: height.checked_sub(1).map(hash).unwrap_or([0; 32]),
        time: height,
        header: Vec::new(),
        transactions: Vec::new(),
        sapling_additions: 0,
        orchard_additions: 0,
        ironwood_additions: 0,
    }
}

fn hash(height: u32) -> [u8; 32] {
    let mut hash = [0; 32];
    hash[..4].copy_from_slice(&height.to_be_bytes());
    hash
}

#[test]
fn creates_four_databases_and_checks_chain_identity() {
    let mut tables = Tables::default();

    tables.open("Mainnet", [1; 32]).unwrap();
    tables.open("Mainnet", [1; 32]).unwrap();
    assert!(tables.open("Testnet", [1; 32]).is_err());
    assert!(tables.open("Mainnet", [2; 32]).is_err());
}

#[test]
fn atomically_writes_restarts_and_packs_sealed_ranges() {
    let mut index = Tables::default();
    index.open("Mainnet", [1; 32]).unwrap();
    let stale = batch(&index, 0..=0, 1_100);
    let first = batch(&index, 0..=1_000, 1_100);
    let state = index.write(first).unwrap();

    assert_eq!(state.durable_tip().unwrap().height, 1_000);
    assert_eq!(state.sealed_through(), Some(999));
    assert_eq!(state.generation(), 1);
    assert!(index.mutable_blocks.get(&0).is_none());
    assert!(index.mutable_blocks.get(&1_000).is_some());
    let range = index.sealed_ranges.get(&0).unwrap();
    assert_eq!(decode_range_record(range, 537).unwrap().height, 537);
    assert_eq!(index.hash_to_height.get(&hash(537)).copied(), Some(537));

    assert!(matches!(
        index.write(stale),
        Err(IndexError::StaleBatch {
            batch_generation: 0
        })
    ));
    assert_eq!(index.state().unwrap(), state);

    let mut reopened = index.clone();
    reopened.open("Mainnet", [1; 32]).unwrap();
    assert_eq!(reopened.state().unwrap(), state);
}

#[test]
fn restart_rejects_a_gap_in_mutable_coverage() {
    let mut index = Tables::default();
    index.open("Mainnet", [1; 32]).unwrap();
    let blocks = batch(&index, 0..=10, 20);
    index.write(blocks).unwrap();
    index.mutable_blocks.remove(&5);

    assert!(matches!(
        index.open("Mainnet", [1; 32]),
        Err(IndexError::Continuity { .. })
    ));
}

#[test]
fn blocks_are_read_back_from_their_places() {
    let mut index = Tables::default();
    index.open("Mainnet", [1; 32]).unwrap();
    let blocks = batch(&index, 0..=2_050, 2_101);
    let state = index.write(blocks).unwrap();
    assert_eq!(state.sealed_through(), Some(1_999));
    assert_eq!(
        record_place(&state, 1_537),
        RecordPlace::Sealed {
            start: 1_000,
            index: 537
        }
    );
    assert_eq!(
        record_place(&state, 2_000),
        RecordPlace::Mutable { height: 2_000 }
    );
    for height in [0, 999, 1_000, 1_999, 2_000, 2_050] {
        let place = record_place(&state, height);
        let record = decode_place(place, index.stored(place).unwrap()).unwrap();
        assert_eq!(record.height, height);
        assert_eq!(record.hash, hash(height));
    }
    index.open("Mainnet", [1; 32]).unwrap();
    let more = batch(&index, 2_051..=2_060, 2_101);
    assert_eq!(index.write(more).unwrap().generation(), 2);
    index.open("Mainnet", [1; 32]).unwrap();
}

#[test]
fn readers_see_one_generation_up_to_its_tip() {
    let mut index = Tables::default();
    let blocks = batch(&index, 0..=1_020, 1_100);
    let state = index.write(blocks).unwrap();
    assert_eq!(
        readable_place(&state, 1, 7),
        Ok(RecordPlace::Sealed { start: 0, index: 7 })
    );
    assert_eq!(
        readable_place(&state, 1, 1_020),
        Ok(RecordPlace::Mutable { height: 1_020 })
    );
    assert_eq!(
        readable_place(&state, 1, 1_021),
        Err(IndexError::Coverage { height: 1_021 })
    );
    assert_eq!(
        readable_place(&state, 0, 7),
        Err(IndexError::Generation { generation: 0 })
    );
    assert_eq!(
        readable_place(&IndexState::default(), 0, 0),
        Err(IndexError::Coverage { height: 0 })
    );
}

#[test]
fn sealing_waits_for_depth_and_coverage() {
    let mut index = Tables::default();
    let blocks = batch(&index, 0..=1_000, 1_098);
    let state = index.write(blocks).unwrap();
    assert_eq!(state.sealed_through(), None);
    assert_eq!(next_range(&state, 99), Ok(None));
    assert_eq!(next_range(&state, 1_098), Ok(None));
    assert_eq!(next_range(&state, 1_099), Ok(Some(0)));
    assert_eq!(next_range(&IndexState::default(), 5_000), Ok(None));
}

#[test]
fn incomplete_ranges_are_not_sealed() {
    let mut index = Tables::default();
    let blocks = batch(&index, 0..=1_000, 1_011);
    let state = index.write(blocks).unwrap();
    let mut rows: Vec<Option<Vec<u8>>> = (0..1_000)
        .map(|height| index.mutable_blocks.get(&height).cloned())
        .collect();
    assert!(seal_range(state, 0, &rows).is_ok());
    rows[7] = None;
    assert_eq!(
        seal_range(state, 0, &rows).unwrap_err(),
        IndexError::IncompleteRange { start: 0 }
    );
    rows[3] = Some(Vec::new());
    assert!(matches!(
        seal_range(state, 0, &rows),
        Err(IndexError::Codec(_))
    ));
}

#[test]
fn state_round_trips_and_bad_states_are_refused() {
    let mut index = Tables::default();
    let blocks = batch(&index, 0..=1_000, 1_100);
    let state = index.write(blocks).unwrap();
    let bytes = encode_state(state);
    assert_eq!(bytes.len(), 62);
    assert_eq!(&bytes[..5], &[1, 0, 0, 3, 232]);
    assert_eq!(&bytes[37..42], &[1, 0, 0, 3, 231]);
    assert_eq!(&bytes[42..50], &[0, 0, 0, 0, 0, 0, 0, 1]);
    assert_eq!(decode_state(&bytes), Ok(state));
    assert_eq!(read_state(None), Ok(IndexState::default()));

    assert_eq!(decode_state(&bytes[..61]), Err(IndexError::Metadata));
    let mut flag = bytes.clone();
    flag[37] = 2;
    assert_eq!(decode_state(&flag), Err(IndexError::Metadata));
    let mut misaligned = bytes.clone();
    misaligned[41] = 230;
    assert_eq!(decode_state(&misaligned), Err(IndexError::Metadata));
    let mut version = bytes;
    version[0] = 0;
    assert_eq!(decode_state(&version), Err(IndexError::Metadata));
}

#[test]
fn identity_spells_out_policy_chain_and_network() {
    let mut expected = vec![0, 0, 0, 1, 0, 0, 3, 232, 0, 0, 0, 10, 0, 0, 0, 100];
    expected.extend_from_slice(&[7; 32]);
    expected.extend_from_slice(b"Mainnet");
    assert_eq!(identity("Mainnet", [7; 32]), expected);
    assert_eq!(check_identity(None, &expected), Ok(true));
    assert_eq!(check_identity(Some(&expected), &expected), Ok(false));
    assert_eq!(
        check_identity(Some(&expected[1..]), &expected),
        Err(IndexError::Identity)
    );
}

#[test]
fn damaged_tables_fail_the_check() {
    let mut index = Tables::default();
    let blocks = batch(&index, 0..=1_020, 1_100);
    index.write(blocks).unwrap();
    index.verify_continuity().unwrap();

    let mut wrong_hash = index.clone();
    wrong_hash.hash_to_height.insert(hash(1_007), 3);
    assert_eq!(
        wrong_hash.verify_continuity(),
        Err(IndexError::HashIndex { height: 1_007 })
    );

    let mut wrong_range = index.clone();
    wrong_range.hash_to_height.insert(hash(999), 3);
    assert_eq!(
        wrong_range.verify_continuity(),
        Err(IndexError::HashIndex { height: 999 })
    );

    let mut swapped = index.clone();
    let stranger = swapped.mutable_blocks[&1_003].clone();
    swapped.mutable_blocks.insert(1_004, stranger);
    assert_eq!(
        swapped.verify_continuity(),
        Err(IndexError::Continuity { height: 1_004 })
    );

    let mut moved = index.clone();
    let range = moved.sealed_ranges.remove(&0).unwrap();
    moved.sealed_ranges.insert(1_000, range);
    assert_eq!(
        moved.verify_continuity(),
        Err(IndexError::Continuity { height: 0 })
    );

    let mut without_state = index.clone();
    without_state.state = None;
    assert_eq!(
        without_state.verify_continuity(),
        Err(IndexError::Metadata)
    );

    let mut sizes = index;
    let mut state = sizes.state.clone().unwrap();
    state[53] = 1;
    sizes.state = Some(state);
    assert_eq!(
        sizes.verify_continuity(),
        Err(IndexError::Continuity { height: 1_020 })
    );
}
