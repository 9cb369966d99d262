//! What the tables of an index hold, and what writing to them and checking them means as a whole.
use vstd::prelude::*;

use crate::codec;
use crate::codec::{CodecError, RecordView};
use crate::index;
use crate::index::{BatchView, CheckView, IndexError, RecordPlace, StateView};

verus! {

/// The four tables of an index: state, sealed ranges by first height, mutable blocks by height, and
/// heights by hash.
#[verifier::ext_equal]
pub struct StoreView {
    pub state: StateView,
    pub sealed: Map<u32, Seq<u8>>,
    pub mutable: Map<u32, Seq<u8>>,
    pub heights: Map<Seq<u8>, u32>,
}

// ---------------------------------------------------------------------------
// Writing
// ---------------------------------------------------------------------------

/// The mutable blocks with the rows of `records` put.
pub open spec fn with_rows(mutable: Map<u32, Seq<u8>>, records: Seq<RecordView>) -> Map<u32, Seq<u8>>
    decreases records.len(),
{
    if records.len() == 0 {
        mutable
    } else {
        with_rows(mutable, records.drop_last()).insert(
            records.last().height,
            codec::record_bytes(records.last()),
        )
    }
}

/// The heights by hash with those of `records` put.
pub open spec fn with_heights(heights: Map<Seq<u8>, u32>, records: Seq<RecordView>) -> Map<
    Seq<u8>,
    u32,
>
    decreases records.len(),
{
    if records.len() == 0 {
        heights
    } else {
        with_heights(heights, records.drop_last()).insert(
            records.last().hash,
            records.last().height,
        )
    }
}

/// What the mutable table holds for the range at `start`.
pub open spec fn range_rows(mutable: Map<u32, Seq<u8>>, start: u32) -> Seq<Option<Seq<u8>>> {
    Seq::new(
        1000,
        |i: int|
            if mutable.dom().contains((start + i) as u32) {
                Some(mutable[(start + i) as u32])
            } else {
                None
            },
    )
}

/// The mutable table without the rows of the range at `start`.
pub open spec fn without_range(mutable: Map<u32, Seq<u8>>, start: u32) -> Map<u32, Seq<u8>> {
    mutable.restrict(Set::new(|height: u32| !(start <= height <= start + 999)))
}

/// The store once the range at `start` has been sealed.
pub open spec fn with_sealed(store: StoreView, start: u32, bytes: Seq<u8>) -> StoreView {
    StoreView {
        state: StateView { sealed_through: Some((start + 999) as u32), ..store.state },
        sealed: store.sealed.insert(start, bytes),
        mutable: without_range(store.mutable, start),
        heights: store.heights,
    }
}

/// The store once every range that is due has been sealed.
pub open spec fn packed(store: StoreView, source_height: u32) -> Result<StoreView, IndexError>
    decreases 0x1_0000_0000 - index::sealed_blocks(store.state),
{
    match index::range_due(store.state, source_height) {
        Err(error) => Err(error),
        Ok(None) => Ok(store),
        Ok(Some(start)) => match index::sealed_bytes(start, range_rows(store.mutable, start)) {
            Err(error) => Err(error),
            Ok(bytes) => packed(with_sealed(store, start, bytes), source_height),
        },
    }
}

/// The store with a batch written to it, in the order in which a write goes.
pub open spec fn written(store: StoreView, batch: BatchView, tip: StateView) -> Result<
    StoreView,
    IndexError,
> {
    match index::write_refusal(store.state, batch) {
        Some(error) => Err(error),
        None => if !codec::all_encodable(batch.records) {
            Err(IndexError::Codec(CodecError::Length))
        } else {
            let rows = StoreView {
                state: tip,
                sealed: store.sealed,
                mutable: with_rows(store.mutable, batch.records),
                heights: with_heights(store.heights, batch.records),
            };
            match packed(rows, batch.source_tip.height) {
                Err(error) => Err(error),
                Ok(after) => if after.state.generation == u64::MAX {
                    Err(IndexError::Overflow)
                } else {
                    Ok(
                        StoreView {
                            state: StateView {
                                generation: (after.state.generation + 1) as u64,
                                ..after.state
                            },
                            ..after
                        },
                    )
                },
            }
        },
    }
}

// ---------------------------------------------------------------------------
// Chains
// ---------------------------------------------------------------------------

/// A chain from height zero whose blocks can be kept and told apart by hash.
pub open spec fn is_indexable(chain: Seq<RecordView>) -> bool {
    &&& chain.len() <= 0x1_0000_0000
    &&& codec::is_chain(chain)
    &&& chain.len() > 0 ==> chain[0].height == 0
    &&& forall|i: int| 0 <= i < chain.len() ==> codec::record_fits(#[trigger] chain[i])
    &&& codec::all_encodable(chain)
    &&& forall|i: int, j: int|
        0 <= i < j < chain.len() ==> (#[trigger] chain[i]).hash != (#[trigger] chain[j]).hash
}

/// The sealed ranges are those of the first `sealed` blocks.
pub open spec fn holds_sealed(
    table: Map<u32, Seq<u8>>,
    chain: Seq<RecordView>,
    sealed: nat,
) -> bool {
    &&& forall|start: u32| #[trigger]
        table.dom().contains(start) <==> start < sealed && start as int % 1000 == 0
    &&& forall|start: u32| #[trigger]
        table.dom().contains(start) ==> table[start] == codec::range_bytes(
            chain.subrange(start as int, start + 1000),
        )
}

/// The mutable blocks are those from `sealed` on.
pub open spec fn holds_mutable(
    table: Map<u32, Seq<u8>>,
    chain: Seq<RecordView>,
    sealed: nat,
) -> bool {
    &&& forall|height: u32| #[trigger]
        table.dom().contains(height) <==> sealed <= height < chain.len()
    &&& forall|height: u32| #[trigger]
        table.dom().contains(height) ==> table[height] == codec::record_bytes(chain[height as int])
}

/// Every block of the chain is found by its hash, and no other hash is.
pub open spec fn holds_heights(table: Map<Seq<u8>, u32>, chain: Seq<RecordView>) -> bool {
    &&& forall|i: int|
        0 <= i < chain.len() ==> table.dom().contains((#[trigger] chain[i]).hash)
            && table[chain[i].hash] == i
    &&& forall|hash: Seq<u8>| #[trigger]
        table.dom().contains(hash) ==> table[hash] < chain.len() && chain[table[hash] as int].hash
            == hash
}

/// The store keeps `chain`, and its state is that of the chain's tip.
pub open spec fn holds_chain(store: StoreView, chain: Seq<RecordView>) -> bool {
    let sealed = index::sealed_blocks(store.state);
    &&& is_indexable(chain)
    &&& index::state_fits(store.state)
    &&& sealed <= chain.len()
    &&& holds_sealed(store.sealed, chain, sealed)
    &&& holds_mutable(store.mutable, chain, sealed)
    &&& holds_heights(store.heights, chain)
    &&& match store.state.durable_tip {
        None => chain.len() == 0,
        Some(tip) => chain.len() > 0 && index::is_id_of(tip, chain.last())
            && store.state.tree_sizes == chain.last().end_tree_sizes,
    }
}

/// The heights of an indexable chain are its positions.
proof fn lemma_heights(chain: Seq<RecordView>, i: int)
    requires
        is_indexable(chain),
        0 <= i < chain.len(),
    ensures
        chain[i].height == i,
{
    codec::lemma_chain_heights(chain, i);
}

/// The rows of a range that the mutable table holds are read back as its records.
proof fn lemma_rows_read(
    mutable: Map<u32, Seq<u8>>,
    chain: Seq<RecordView>,
    sealed: nat,
    start: u32,
    count: nat,
)
    requires
        is_indexable(chain),
        holds_mutable(mutable, chain, sealed),
        start >= sealed,
        start + 999 < chain.len(),
        count <= 1000,
    ensures
        index::read_rows(start, range_rows(mutable, start), count) == Ok::<
            Seq<RecordView>,
            IndexError,
        >(chain.subrange(start as int, start + count)),
    decreases count,
{
    if count == 0 {
        assert(chain.subrange(start as int, start as int) =~= Seq::empty());
    } else {
        let fewer = (count - 1) as nat;
        let height = (start + fewer) as u32;
        lemma_rows_read(mutable, chain, sealed, start, fewer);
        assert(mutable.dom().contains(height));
        assert(codec::record_fits(chain[height as int]));
        assert(codec::is_encodable(chain[height as int]));
        codec::law_decode_undoes_encode(chain[height as int]);
        assert(range_rows(mutable, start)[fewer as int] == Some(
            codec::record_bytes(chain[height as int]),
        ));
        assert(chain.subrange(start as int, start + fewer).push(chain[height as int])
            =~= chain.subrange(start as int, start + count));
    }
}

/// Blocks of a chain from a multiple of the range size make a range.
proof fn lemma_is_range(chain: Seq<RecordView>, start: int)
    requires
        is_indexable(chain),
        0 <= start,
        start + 1000 <= chain.len(),
        start % 1000 == 0,
    ensures
        codec::is_range(chain.subrange(start, start + 1000)),
        codec::all_encodable(chain.subrange(start, start + 1000)),
        forall|i: int|
            0 <= i < 1000 ==> codec::record_fits(
                #[trigger] chain.subrange(start, start + 1000)[i],
            ),
{
    let range = chain.subrange(start, start + 1000);
    lemma_heights(chain, start);
    assert forall|i: int, j: int| 0 <= i && j == i + 1 && j < range.len() implies codec::linked(
        #[trigger] range[i],
        #[trigger] range[j],
    ) by {
        assert(codec::linked(chain[start + i], chain[start + j]));
    }
}

/// Packing keeps the chain.
proof fn lemma_packed_holds(store: StoreView, chain: Seq<RecordView>, source_height: u32)
    requires
        holds_chain(store, chain),
        chain.len() <= 4_294_966_999,
    ensures
        packed(store, source_height) matches Ok(after) && holds_chain(after, chain)
            && after.state.generation == store.state.generation && after.state.durable_tip
            == store.state.durable_tip && index::range_due(after.state, source_height) == Ok::<
            Option<u32>,
            IndexError,
        >(None),
    decreases 0x1_0000_0000 - index::sealed_blocks(store.state),
{
    let sealed = index::sealed_blocks(store.state);
    match index::range_due(store.state, source_height) {
        Err(error) => {
            assert(sealed + 999 > u32::MAX);
        },
        Ok(None) => {},
        Ok(Some(start)) => {
            let range = chain.subrange(start as int, start + 1000);
            lemma_heights(chain, chain.len() - 1);
            lemma_rows_read(store.mutable, chain, sealed, start, 1000);
            lemma_is_range(chain, start as int);
            let bytes = codec::range_bytes(range);
            let next = with_sealed(store, start, bytes);
            assert(index::sealed_bytes(start, range_rows(store.mutable, start)) == Ok::<
                Seq<u8>,
                IndexError,
            >(bytes));
            assert(holds_chain(next, chain));
            lemma_packed_holds(next, chain, source_height);
        },
    }
}

proof fn lemma_with_rows(mutable: Map<u32, Seq<u8>>, chain: Seq<RecordView>, count: nat, sealed: nat)
    requires
        is_indexable(chain),
        sealed <= chain.len() - count,
        0 <= count <= chain.len(),
        holds_mutable(mutable, chain.take(chain.len() - count), sealed),
    ensures
        holds_mutable(with_rows(mutable, chain.skip(chain.len() - count)), chain, sealed),
    decreases count,
{
    if count == 0 {
        assert(chain.take(chain.len() as int) =~= chain);
    } else {
        let shorter = chain.drop_last();
        let more = chain.skip(chain.len() - count);
        lemma_heights(chain, chain.len() - 1);
        assert(shorter.take(shorter.len() - (count - 1)) =~= chain.take(chain.len() - count));
        assert(shorter.skip(shorter.len() - (count - 1)) =~= more.drop_last());
        lemma_prefix(chain, chain.len() - 1);
        assert(chain.take(chain.len() - 1) =~= shorter);
        lemma_with_rows(mutable, shorter, (count - 1) as nat, sealed);
    }
}

/// A prefix of an indexable chain is indexable.
proof fn lemma_prefix(chain: Seq<RecordView>, len: int)
    requires
        is_indexable(chain),
        0 <= len <= chain.len(),
    ensures
        is_indexable(chain.take(len)),
{
    let prefix = chain.take(len);
    assert forall|i: int, j: int| 0 <= i && j == i + 1 && j < prefix.len() implies codec::linked(
        #[trigger] prefix[i],
        #[trigger] prefix[j],
    ) by {
        assert(codec::linked(chain[i], chain[j]));
    }
}

proof fn lemma_with_heights(heights: Map<Seq<u8>, u32>, chain: Seq<RecordView>, count: nat)
    requires
        is_indexable(chain),
        0 <= count <= chain.len(),
        holds_heights(heights, chain.take(chain.len() - count)),
    ensures
        holds_heights(with_heights(heights, chain.skip(chain.len() - count)), chain),
    decreases count,
{
    if count == 0 {
        assert(chain.take(chain.len() as int) =~= chain);
    } else {
        let shorter = chain.drop_last();
        let more = chain.skip(chain.len() - count);
        let last = chain.len() - 1;
        lemma_heights(chain, last);
        assert(shorter.take(shorter.len() - (count - 1)) =~= chain.take(chain.len() - count));
        assert(shorter.skip(shorter.len() - (count - 1)) =~= more.drop_last());
        lemma_prefix(chain, last);
        assert(chain.take(last) =~= shorter);
        lemma_with_heights(heights, shorter, (count - 1) as nat);
        let before = with_heights(heights, more.drop_last());
        let after = with_heights(heights, more);
        assert(after == before.insert(chain[last].hash, last as u32));
        assert forall|i: int| 0 <= i < chain.len() implies after.dom().contains(
            (#[trigger] chain[i]).hash,
        ) && after[chain[i].hash] == i by {
            if i < last {
                assert(shorter[i] == chain[i]);
                assert(chain[i].hash != chain[last].hash);
            }
        }
    }
}

/// Writing a batch that follows the chain in the store leaves a store that holds the chain and the
/// batch, one generation on, with every range sealed that is deep enough.
pub proof fn law_write_extends_chain(
    store: StoreView,
    chain: Seq<RecordView>,
    batch: BatchView,
    tip: StateView,
)
    requires
        holds_chain(store, chain),
        index::batch_fits(batch),
        index::write_refusal(store.state, batch) is None,
        index::has_new_tip(store.state, batch.records.last(), tip),
        is_indexable(chain + batch.records),
        chain.len() + batch.records.len() <= 4_294_966_999,
        store.state.generation < u64::MAX,
    ensures
        written(store, batch, tip) matches Ok(after) && holds_chain(after, chain + batch.records)
            && after.state.generation == store.state.generation + 1 && index::range_due(
            after.state,
            batch.source_tip.height,
        ) == Ok::<Option<u32>, IndexError>(None),
{
    let longer = chain + batch.records;
    let count = batch.records.len();
    let sealed = index::sealed_blocks(store.state);
    assert(longer.take(longer.len() - count) =~= chain);
    assert(longer.skip(longer.len() - count) =~= batch.records);
    lemma_with_rows(store.mutable, longer, count, sealed);
    lemma_with_heights(store.heights, longer, count);
    let rows = StoreView {
        state: tip,
        sealed: store.sealed,
        mutable: with_rows(store.mutable, batch.records),
        heights: with_heights(store.heights, batch.records),
    };
    assert(codec::all_encodable(batch.records)) by {
        assert forall|i: int| 0 <= i < count implies codec::is_encodable(
            #[trigger] batch.records[i],
        ) by {
            assert(longer[chain.len() + i] == batch.records[i]);
        }
    }
    lemma_heights(longer, longer.len() - 1);
    assert(longer.last() == batch.records.last());
    assert(holds_sealed(rows.sealed, longer, sealed)) by {
        assert forall|start: u32| #[trigger] rows.sealed.dom().contains(start) implies rows.sealed[start]
            == codec::range_bytes(longer.subrange(start as int, start + 1000)) by {
            assert(start + 1000 <= sealed);
            assert(longer.subrange(start as int, start + 1000) =~= chain.subrange(
                start as int,
                start + 1000,
            ));
        }
    }
    lemma_packed_holds(rows, longer, batch.source_tip.height);
}

// ---------------------------------------------------------------------------
// Reading
// ---------------------------------------------------------------------------

/// What the store keeps at a place.
pub open spec fn stored_at(store: StoreView, place: RecordPlace) -> Option<Seq<u8>> {
    match place {
        RecordPlace::Sealed { start, index } => if store.sealed.dom().contains(start) {
            Some(store.sealed[start])
        } else {
            None
        },
        RecordPlace::Mutable { height } => if store.mutable.dom().contains(height) {
            Some(store.mutable[height])
        } else {
            None
        },
    }
}

/// Every block of the chain is read back from its place, sealed or not.
pub proof fn law_blocks_are_read_back(store: StoreView, chain: Seq<RecordView>, height: u32)
    requires
        holds_chain(store, chain),
        height < chain.len(),
    ensures
        ({
            let place = index::place_of(store.state, height);
            &&& stored_at(store, place) matches Some(bytes) && index::read_place(place, bytes)
                == Ok::<RecordView, CodecError>(chain[height as int])
            &&& chain[height as int].height == height
        }),
{
    let sealed = index::sealed_blocks(store.state);
    lemma_heights(chain, height as int);
    assert(codec::record_fits(chain[height as int]));
    assert(codec::is_encodable(chain[height as int]));
    if height < sealed {
        let start = (height as int - height as int % 1000) as u32;
        let position = height as int % 1000;
        assert(sealed as int % 1000 == 0);
        assert(start + 1000 <= sealed);
        lemma_is_range(chain, start as int);
        codec::law_range_record_undoes_encode(
            chain.subrange(start as int, start + 1000),
            position,
        );
    } else {
        codec::law_decode_undoes_encode(chain[height as int]);
    }
}

/// Every block of the chain is found by its hash.
pub proof fn law_blocks_are_found_by_hash(store: StoreView, chain: Seq<RecordView>, height: u32)
    requires
        holds_chain(store, chain),
        height < chain.len(),
    ensures
        store.heights.dom().contains(chain[height as int].hash),
        store.heights[chain[height as int].hash] == height,
{
}

// ---------------------------------------------------------------------------
// Checking
// ---------------------------------------------------------------------------

/// What the hash table says of a block.
pub open spec fn height_of(heights: Map<Seq<u8>, u32>, hash: Seq<u8>) -> Option<u32> {
    if heights.dom().contains(hash) {
        Some(heights[hash])
    } else {
        None
    }
}

/// A check on one row of the sealed ranges.
pub open spec fn check_range_row(
    check: CheckView,
    heights: Map<Seq<u8>, u32>,
    row: (u32, Seq<u8>),
) -> Result<CheckView, IndexError> {
    match index::check_range(check, row.0, row.1) {
        Err(error) => Err(error),
        Ok((first, last)) => match index::check_hash(
            first.height,
            height_of(heights, first.hash),
        ) {
            Err(error) => Err(error),
            Ok(()) => match index::check_hash(last.height, height_of(heights, last.hash)) {
                Err(error) => Err(error),
                Ok(()) => Ok(index::check_past(check, 1000, last.hash)),
            },
        },
    }
}

/// A check on one mutable row.
pub open spec fn check_mutable_row(
    check: CheckView,
    heights: Map<Seq<u8>, u32>,
    row: (u32, Seq<u8>),
) -> Result<CheckView, IndexError> {
    match index::check_row(check, row.0, row.1) {
        Err(error) => Err(error),
        Ok(record) => match index::check_hash(record.height, height_of(heights, record.hash)) {
            Err(error) => Err(error),
            Ok(()) => Ok(index::check_past(check, 1, record.hash)),
        },
    }
}

/// A check on the first `count` rows of the sealed ranges.
pub open spec fn check_range_rows(
    check: CheckView,
    heights: Map<Seq<u8>, u32>,
    rows: Seq<(u32, Seq<u8>)>,
    count: nat,
) -> Result<CheckView, IndexError>
    decreases count,
{
    if count == 0 {
        Ok(check)
    } else {
        match check_range_rows(check, heights, rows, (count - 1) as nat) {
            Err(error) => Err(error),
            Ok(check) => check_range_row(check, heights, rows[count - 1]),
        }
    }
}

/// A check on the first `count` mutable rows.
pub open spec fn check_mutable_rows(
    check: CheckView,
    heights: Map<Seq<u8>, u32>,
    rows: Seq<(u32, Seq<u8>)>,
    count: nat,
) -> Result<CheckView, IndexError>
    decreases count,
{
    if count == 0 {
        Ok(check)
    } else {
        match check_mutable_rows(check, heights, rows, (count - 1) as nat) {
            Err(error) => Err(error),
            Ok(check) => check_mutable_row(check, heights, rows[count - 1]),
        }
    }
}

/// A check from the first sealed range to the tip.
pub open spec fn check_rows(
    check: CheckView,
    heights: Map<Seq<u8>, u32>,
    sealed: Seq<(u32, Seq<u8>)>,
    mutable: Seq<(u32, Seq<u8>)>,
    tip: Option<Seq<u8>>,
) -> Result<(), IndexError> {
    match check_range_rows(check, heights, sealed, sealed.len()) {
        Err(error) => Err(error),
        Ok(check) => match index::check_ranges_end(check) {
            Err(error) => Err(error),
            Ok(()) => match check_mutable_rows(check, heights, mutable, mutable.len()) {
                Err(error) => Err(error),
                Ok(check) => index::check_tip(check, tip),
            },
        },
    }
}

/// The rows of the sealed ranges, lowest height first.
pub open spec fn sealed_rows(store: StoreView) -> Seq<(u32, Seq<u8>)> {
    Seq::new(
        index::sealed_blocks(store.state) / 1000,
        |i: int| ((1000 * i) as u32, store.sealed[(1000 * i) as u32]),
    )
}

/// The mutable rows of a store that holds `len` blocks, lowest height first.
pub open spec fn mutable_rows(store: StoreView, len: nat) -> Seq<(u32, Seq<u8>)> {
    let sealed = index::sealed_blocks(store.state);
    Seq::new(
        (len - sealed) as nat,
        |i: int| ((sealed + i) as u32, store.mutable[(sealed + i) as u32]),
    )
}

/// The check behind the first `len` blocks of a chain.
pub open spec fn check_behind(state: StateView, chain: Seq<RecordView>, len: nat) -> CheckView {
    CheckView {
        state,
        next_height: len,
        previous_hash: if len == 0 {
            None
        } else {
            Some(chain[len - 1].hash)
        },
    }
}

proof fn lemma_ranges_pass(store: StoreView, chain: Seq<RecordView>, count: nat)
    requires
        holds_chain(store, chain),
        store.state.durable_tip is Some,
        1000 * count <= index::sealed_blocks(store.state),
    ensures
        check_range_rows(
            check_behind(store.state, chain, 0),
            store.heights,
            sealed_rows(store),
            count,
        ) == Ok::<CheckView, IndexError>(check_behind(store.state, chain, 1000 * count)),
    decreases count,
{
    if count > 0 {
        let fewer = (count - 1) as nat;
        let start = 1000 * fewer;
        let check = check_behind(store.state, chain, start);
        lemma_ranges_pass(store, chain, fewer);
        law_blocks_are_read_back(store, chain, start as u32);
        law_blocks_are_read_back(store, chain, (start + 999) as u32);
        let bytes = store.sealed[start as u32];
        assert(codec::read_range_record(bytes, 0) == Ok::<RecordView, CodecError>(
            chain[start as int],
        ));
        assert(codec::read_range_record(bytes, 999) == Ok::<RecordView, CodecError>(
            chain[(start + 999) as int],
        ));
        if start > 0 {
            assert(codec::linked(chain[start - 1], chain[start as int]));
        }
        assert(check_range_row(check, store.heights, sealed_rows(store)[fewer as int]) == Ok::<
            CheckView,
            IndexError,
        >(check_behind(store.state, chain, 1000 * count)));
    }
}

proof fn lemma_rows_pass(store: StoreView, chain: Seq<RecordView>, count: nat)
    requires
        holds_chain(store, chain),
        store.state.durable_tip is Some,
        index::sealed_blocks(store.state) + count <= chain.len(),
    ensures
        check_mutable_rows(
            check_behind(store.state, chain, index::sealed_blocks(store.state)),
            store.heights,
            mutable_rows(store, chain.len()),
            count,
        ) == Ok::<CheckView, IndexError>(
            check_behind(store.state, chain, index::sealed_blocks(store.state) + count),
        ),
    decreases count,
{
    if count > 0 {
        let fewer = (count - 1) as nat;
        let height = index::sealed_blocks(store.state) + fewer;
        let check = check_behind(store.state, chain, height);
        lemma_rows_pass(store, chain, fewer);
        law_blocks_are_read_back(store, chain, height as u32);
        let bytes = store.mutable[height as u32];
        assert(codec::read_record(bytes) == Ok::<RecordView, CodecError>(chain[height as int]));
        if height > 0 {
            assert(codec::linked(chain[height - 1], chain[height as int]));
        }
        assert(check_mutable_row(
            check,
            store.heights,
            mutable_rows(store, chain.len())[fewer as int],
        ) == Ok::<CheckView, IndexError>(check_behind(store.state, chain, height + 1)));
    }
}

/// A store that holds a chain passes the check of a restart.
pub proof fn law_held_chain_passes_check(store: StoreView, chain: Seq<RecordView>)
    requires
        holds_chain(store, chain),
        chain.len() > 0,
    ensures
        ({
            let sealed = sealed_rows(store);
            let mutable = mutable_rows(store, chain.len());
            let tip = stored_at(
                store,
                index::place_of(store.state, store.state.durable_tip->Some_0.height),
            );
            index::check_start(store.state, sealed.len(), mutable.len(), chain.len()) matches Ok(
                Some(check),
            ) && check_rows(check, store.heights, sealed, mutable, tip) == Ok::<(), IndexError>(())
        }),
{
    let sealed = index::sealed_blocks(store.state);
    lemma_heights(chain, chain.len() - 1);
    lemma_ranges_pass(store, chain, sealed / 1000);
    lemma_rows_pass(store, chain, (chain.len() - sealed) as nat);
    law_blocks_are_read_back(store, chain, (chain.len() - 1) as u32);
    assert(1000 * (sealed / 1000) == sealed);
}

/// The first block in a row of the sealed ranges.
pub open spec fn range_first(row: (u32, Seq<u8>)) -> RecordView {
    codec::read_range_record(row.1, 0)->Ok_0
}

/// The last block in a row of the sealed ranges.
pub open spec fn range_last(row: (u32, Seq<u8>)) -> RecordView {
    codec::read_range_record(row.1, 999)->Ok_0
}

/// Sealed ranges that pass a check: their keys have no gap, the first and the last block of each
/// are read and found by their hashes, and each range is on top of the one before it.
pub open spec fn ranges_are_chain(
    check: CheckView,
    heights: Map<Seq<u8>, u32>,
    rows: Seq<(u32, Seq<u8>)>,
) -> bool {
    &&& forall|i: int|
        0 <= i < rows.len() ==> {
            let row = #[trigger] rows[i];
            &&& row.0 == check.next_height + 1000 * i
            &&& codec::read_range_record(row.1, 0) is Ok
            &&& codec::read_range_record(row.1, 999) is Ok
            &&& height_of(heights, range_first(row).hash) == Some(range_first(row).height)
            &&& height_of(heights, range_last(row).hash) == Some(range_last(row).height)
        }
    &&& forall|i: int, j: int|
        0 <= i && j == i + 1 && j < rows.len() ==> range_first(
            #[trigger] rows[j],
        ).previous_hash == range_last(#[trigger] rows[i]).hash
    &&& rows.len() > 0 && check.previous_hash is Some ==> check.previous_hash == Some(
        range_first(rows[0]).previous_hash,
    )
}

proof fn lemma_passed_ranges(
    check: CheckView,
    heights: Map<Seq<u8>, u32>,
    rows: Seq<(u32, Seq<u8>)>,
    count: nat,
)
    requires
        count <= rows.len(),
        check_range_rows(check, heights, rows, count) is Ok,
    ensures
        ranges_are_chain(check, heights, rows.take(count as int)),
        check_range_rows(check, heights, rows, count) == Ok::<CheckView, IndexError>(
            CheckView {
                state: check.state,
                next_height: check.next_height + 1000 * count,
                previous_hash: if count == 0 {
                    check.previous_hash
                } else {
                    Some(range_last(rows[count - 1]).hash)
                },
            },
        ),
    decreases count,
{
    if count > 0 {
        let fewer = (count - 1) as nat;
        lemma_passed_ranges(check, heights, rows, fewer);
        let taken = rows.take(count as int);
        assert forall|i: int| 0 <= i < fewer implies rows.take(fewer as int)[i]
            == #[trigger] taken[i] by {}
        assert(taken[fewer as int] == rows[fewer as int]);
    }
}

/// Mutable rows that pass a check are a chain: their heights have no gap, each block is on top of
/// the one before it, and each is found by its hash.
pub open spec fn rows_are_chain(
    check: CheckView,
    heights: Map<Seq<u8>, u32>,
    rows: Seq<(u32, Seq<u8>)>,
    records: Seq<RecordView>,
) -> bool {
    &&& records.len() == rows.len()
    &&& forall|i: int|
        0 <= i < rows.len() ==> (#[trigger] rows[i]).0 == check.next_height + i
            && codec::read_record(rows[i].1) == Ok::<RecordView, CodecError>(records[i])
            && records[i].height == rows[i].0 && height_of(heights, records[i].hash) == Some(rows[i].0)
    &&& codec::is_chain(records)
    &&& records.len() > 0 && check.previous_hash is Some ==> check.previous_hash == Some(
        records[0].previous_hash,
    )
}

proof fn lemma_passed_rows(
    check: CheckView,
    heights: Map<Seq<u8>, u32>,
    rows: Seq<(u32, Seq<u8>)>,
    count: nat,
) -> (records: Seq<RecordView>)
    requires
        count <= rows.len(),
        check_mutable_rows(check, heights, rows, count) is Ok,
    ensures
        rows_are_chain(check, heights, rows.take(count as int), records),
        check_mutable_rows(check, heights, rows, count) == Ok::<CheckView, IndexError>(
            CheckView {
                state: check.state,
                next_height: check.next_height + count,
                previous_hash: if count == 0 {
                    check.previous_hash
                } else {
                    Some(records.last().hash)
                },
            },
        ),
    decreases count,
{
    if count == 0 {
        Seq::empty()
    } else {
        let fewer = (count - 1) as nat;
        let records = lemma_passed_rows(check, heights, rows, fewer);
        let record = codec::read_record(rows[fewer as int].1)->Ok_0;
        let longer = records.push(record);
        assert forall|i: int| 0 <= i < count implies (#[trigger] rows.take(count as int)[i]).0
            == check.next_height + i && codec::read_record(rows.take(count as int)[i].1) == Ok::<
            RecordView,
            CodecError,
        >(longer[i]) && longer[i].height == rows.take(count as int)[i].0 && height_of(
            heights,
            longer[i].hash,
        ) == Some(rows.take(count as int)[i].0) by {
            if i < fewer {
                assert(rows.take(fewer as int)[i] == rows[i]);
            }
        }
        assert forall|i: int, j: int| 0 <= i && j == i + 1 && j < longer.len() implies codec::linked(
            #[trigger] longer[i],
            #[trigger] longer[j],
        ) by {
            if j < records.len() {
                assert(codec::linked(records[i], records[j]));
            } else {
                assert(rows.take(fewer as int)[i] == rows[i]);
            }
        }
        longer
    }
}

/// What passes the check of a restart has no gap: the keys of its sealed ranges go on by the size
/// of a range up to the number of sealed blocks, those of its mutable rows by one up to the tip,
/// and range, row and tip are each on top of what comes before. The first and the last block of
/// every range and every mutable block are found by their hashes. The block stored at the tip ends
/// with the tree sizes of the state.
pub proof fn law_passed_check_has_no_gap(
    check: CheckView,
    heights: Map<Seq<u8>, u32>,
    sealed: Seq<(u32, Seq<u8>)>,
    mutable: Seq<(u32, Seq<u8>)>,
    tip: Option<Seq<u8>>,
) -> (records: Seq<RecordView>)
    requires
        check_rows(check, heights, sealed, mutable, tip) == Ok::<(), IndexError>(()),
    ensures
        ({
            let durable = check.state.durable_tip->Some_0;
            let past = CheckView {
                state: check.state,
                next_height: index::sealed_blocks(check.state),
                previous_hash: if sealed.len() == 0 {
                    check.previous_hash
                } else {
                    Some(range_last(sealed.last()).hash)
                },
            };
            &&& ranges_are_chain(check, heights, sealed)
            &&& check.next_height + 1000 * sealed.len() == past.next_height
            &&& rows_are_chain(past, heights, mutable, records)
            &&& past.next_height + mutable.len() == durable.height + 1
            &&& if mutable.len() > 0 {
                index::is_id_of(durable, records.last())
            } else {
                past.previous_hash == Some(durable.hash@)
            }
            &&& tip is Some
            &&& index::read_place(
                index::place_of(check.state, durable.height),
                tip->Some_0,
            ) matches Ok(record) && record.end_tree_sizes == check.state.tree_sizes
        }),
{
    let past = check_range_rows(check, heights, sealed, sealed.len())->Ok_0;
    lemma_passed_ranges(check, heights, sealed, sealed.len());
    assert(sealed.take(sealed.len() as int) =~= sealed);
    let records = lemma_passed_rows(past, heights, mutable, mutable.len());
    assert(mutable.take(mutable.len() as int) =~= mutable);
    if mutable.len() > 0 {
        assert(mutable[mutable.len() - 1].0 == past.next_height + mutable.len() - 1);
    }
    records
}

proof fn lemma_packed_keeps(store: StoreView, source_height: u32)
    ensures
        packed(store, source_height) matches Ok(after) ==> after.state.generation
            == store.state.generation && after.state.durable_tip == store.state.durable_tip
            && after.state.tree_sizes == store.state.tree_sizes,
    decreases 0x1_0000_0000 - index::sealed_blocks(store.state),
{
    if let Ok(Some(start)) = index::range_due(store.state, source_height) {
        if let Ok(bytes) = index::sealed_bytes(start, range_rows(store.mutable, start)) {
            lemma_packed_keeps(with_sealed(store, start, bytes), source_height);
        }
    }
}

/// Once a batch is written, every other batch built on the same generation is stale.
pub proof fn law_second_batch_is_stale(
    store: StoreView,
    batch: BatchView,
    tip: StateView,
    second: BatchView,
)
    requires
        index::has_new_tip(store.state, batch.records.last(), tip),
        written(store, batch, tip) is Ok,
        second.base_generation == batch.base_generation,
        batch.records.last().height < u32::MAX,
    ensures
        index::write_refusal(written(store, batch, tip)->Ok_0.state, second) == Some(
            IndexError::StaleBatch { batch_generation: batch.base_generation },
        ),
{
    let rows = StoreView {
        state: tip,
        sealed: store.sealed,
        mutable: with_rows(store.mutable, batch.records),
        heights: with_heights(store.heights, batch.records),
    };
    lemma_packed_keeps(rows, batch.source_tip.height);
}

} // verus!
