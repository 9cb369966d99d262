//! Rules of the block index: its state, what a batch of blocks writes to it, how blocks are packed
//! into sealed ranges, and what a restart checks.
//!
//! The index keeps four tables: metadata (identity and state), sealed ranges by first height,
//! mutable blocks by height, and heights by block hash.
use vstd::prelude::*;
use vstd::string::StringExecFns;

use crate::bytes;
use crate::codec;
use crate::codec::{CodecError, CompactBlockRecord, RecordView, TreeSizes};
use crate::indexer::tree::TreeError;
use crate::text;

verus! {

pub const SCHEMA_VERSION: u32 = 1;

/// Number of blocks in a sealed range.
pub const RANGE_SIZE: u32 = 1_000;

/// How far below the tip of the chain a block must lie to be indexed.
pub const PERSIST_DEPTH: u32 = 10;

/// How far below the tip of the chain the end of a range must lie for the range to be sealed.
pub const SEAL_DEPTH: u32 = 100;

pub const STATE_FORMAT_VERSION: u8 = 1;

pub const STATE_BYTES: usize = 62;

/// A block by height and hash.
#[derive(Clone, Copy, Debug, PartialEq, Eq)]
pub struct BlockId {
    pub height: u32,
    pub hash: [u8; 32],
}

impl BlockId {
    pub fn new(height: u32, hash: [u8; 32]) -> (id: Self)
        ensures
            id == (BlockId { height, hash }),
    {
        BlockId { height, hash }
    }
}

/// Why the index refuses an operation.
#[derive(Clone, Copy, Debug, PartialEq, Eq)]
pub enum IndexError {
    Codec(CodecError),
    Identity,
    Metadata,
    StaleBatch { batch_generation: u64 },
    IncompleteRange { start: u32 },
    Continuity { height: u32 },
    HashIndex { height: u32 },
    Tree(TreeError),
    /// No block of this height is indexed.
    Coverage { height: u32 },
    /// The index has gone on since this generation.
    Generation { generation: u64 },
    Overflow,
}

impl IndexError {
    /// The error in words.
    pub open spec fn words(self) -> Seq<char> {
        match self {
            IndexError::Codec(error) => error.words(),
            IndexError::Identity =>
                "LMDB network, genesis hash, or fixed index policy does not match"@,
            IndexError::Metadata => "LMDB metadata is incomplete or inconsistent"@,
            IndexError::StaleBatch { batch_generation } =>
                "write batch was built from stale index generation "@ + text::decimal(
                batch_generation as nat,
            ),
            IndexError::IncompleteRange { start } => "mutable range starting at "@
                + text::decimal(start as nat) + " is incomplete"@,
            IndexError::Continuity { height } =>
                "LMDB compact coverage is not contiguous at height "@ + text::decimal(
                height as nat,
            ),
            IndexError::HashIndex { height } =>
                "LMDB hash index does not match compact block at height "@ + text::decimal(
                height as nat,
            ),
            IndexError::Tree(error) => error.words(),
            IndexError::Coverage { height } => "compact coverage does not reach height "@
                + text::decimal(height as nat),
            IndexError::Generation { generation } => "index generation "@ + text::decimal(
                generation as nat,
            ) + " is gone"@,
            IndexError::Overflow => "height or generation overflow"@,
        }
    }

    /// The error in words.
    pub fn message(&self) -> (message: String)
        ensures
            message@ == self.words(),
    {
        match self {
            IndexError::Codec(error) => error.message(),
            IndexError::Identity => String::from_str(
                "LMDB network, genesis hash, or fixed index policy does not match",
            ),
            IndexError::Metadata => String::from_str(
                "LMDB metadata is incomplete or inconsistent",
            ),
            IndexError::StaleBatch { batch_generation } => String::from_str(
                "write batch was built from stale index generation ",
            ).concat(text::number_text(*batch_generation).as_str()),
            IndexError::IncompleteRange { start } => text::text_with_number(
                "mutable range starting at ",
                *start as u64,
                " is incomplete",
            ),
            IndexError::Continuity { height } => String::from_str(
                "LMDB compact coverage is not contiguous at height ",
            ).concat(text::number_text(*height as u64).as_str()),
            IndexError::HashIndex { height } => String::from_str(
                "LMDB hash index does not match compact block at height ",
            ).concat(text::number_text(*height as u64).as_str()),
            IndexError::Tree(error) => error.message(),
            IndexError::Coverage { height } => String::from_str(
                "compact coverage does not reach height ",
            ).concat(text::number_text(*height as u64).as_str()),
            IndexError::Generation { generation } => text::text_with_number(
                "index generation ",
                *generation,
                " is gone",
            ),
            IndexError::Overflow => String::from_str("height or generation overflow"),
        }
    }
}

// ---------------------------------------------------------------------------
// State
// ---------------------------------------------------------------------------

/// How far the index has come.
#[derive(Clone, Copy, Debug, PartialEq, Eq)]
pub struct IndexState {
    durable_tip: Option<BlockId>,
    sealed_through: Option<u32>,
    generation: u64,
    tree_sizes: TreeSizes,
}

/// An [`IndexState`] with its fields in the open.
#[verifier::ext_equal]
pub struct StateView {
    pub durable_tip: Option<BlockId>,
    pub sealed_through: Option<u32>,
    pub generation: u64,
    pub tree_sizes: TreeSizes,
}

/// The state of an index without blocks.
pub open spec fn empty_state() -> StateView {
    StateView {
        durable_tip: None,
        sealed_through: None,
        generation: 0,
        tree_sizes: TreeSizes { sapling: 0, orchard: 0, ironwood: 0 },
    }
}

/// `sealed` is the last height of a range that ends at or below `tip`.
pub open spec fn sealed_fits(sealed: Option<u32>, tip: u32) -> bool {
    sealed matches Some(height) ==> height <= tip && height as int % 1000 == 999
}

/// States that an index can have.
pub open spec fn state_fits(state: StateView) -> bool {
    match state.durable_tip {
        None => state == empty_state(),
        Some(tip) => sealed_fits(state.sealed_through, tip.height),
    }
}

impl View for IndexState {
    type V = StateView;

    closed spec fn view(&self) -> StateView {
        StateView {
            durable_tip: self.durable_tip,
            sealed_through: self.sealed_through,
            generation: self.generation,
            tree_sizes: self.tree_sizes,
        }
    }
}

impl Default for IndexState {
    fn default() -> (state: Self)
        ensures
            state@ == empty_state(),
    {
        IndexState {
            durable_tip: None,
            sealed_through: None,
            generation: 0,
            tree_sizes: TreeSizes { sapling: 0, orchard: 0, ironwood: 0 },
        }
    }
}

impl IndexState {
    #[verifier::type_invariant]
    spec fn inv(self) -> bool {
        state_fits(self@)
    }

    pub fn durable_tip(&self) -> (tip: Option<BlockId>)
        ensures
            tip == self@.durable_tip,
            state_fits(self@),
    {
        proof {
            use_type_invariant(self);
        }
        self.durable_tip
    }

    pub fn sealed_through(&self) -> (sealed: Option<u32>)
        ensures
            sealed == self@.sealed_through,
            state_fits(self@),
    {
        proof {
            use_type_invariant(self);
        }
        self.sealed_through
    }

    pub fn generation(&self) -> (generation: u64)
        ensures
            generation == self@.generation,
    {
        self.generation
    }

    pub fn tree_sizes(&self) -> (sizes: TreeSizes)
        ensures
            sizes == self@.tree_sizes,
    {
        self.tree_sizes
    }
}

/// The sealed height, or zero, as it is written.
pub open spec fn sealed_number(sealed: Option<u32>) -> nat {
    match sealed {
        None => 0,
        Some(height) => height as nat,
    }
}

/// The state of an index whose tip is `tip`, as it is kept.
pub open spec fn state_bytes(state: StateView) -> Seq<u8> {
    let tip = state.durable_tip->Some_0;
    seq![STATE_FORMAT_VERSION] + bytes::be_bytes(tip.height as nat, 4) + tip.hash@ + seq![
        if state.sealed_through is Some {
            1u8
        } else {
            0u8
        },
    ] + bytes::be_bytes(sealed_number(state.sealed_through), 4) + bytes::be_bytes(
        state.generation as nat,
        8,
    ) + bytes::be_bytes(state.tree_sizes.sapling as nat, 4) + bytes::be_bytes(
        state.tree_sizes.orchard as nat,
        4,
    ) + bytes::be_bytes(state.tree_sizes.ironwood as nat, 4)
}

/// The sealed height in kept bytes.
pub open spec fn sealed_at(bytes: Seq<u8>) -> Option<u32> {
    if bytes[37] == 1 {
        Some(codec::number_at(bytes, 38) as u32)
    } else {
        None
    }
}

/// `bytes` are the kept bytes of some state.
pub open spec fn is_state(bytes: Seq<u8>) -> bool {
    &&& bytes.len() == STATE_BYTES
    &&& bytes[0] == STATE_FORMAT_VERSION
    &&& bytes[37] <= 1
    &&& sealed_fits(sealed_at(bytes), codec::number_at(bytes, 1) as u32)
}

/// `state` is what `bytes` say, field by field.
pub open spec fn state_matches(bytes: Seq<u8>, state: StateView) -> bool {
    &&& state.durable_tip matches Some(tip) && tip.height == codec::number_at(bytes, 1)
        && tip.hash@ == bytes.subrange(5, 37)
    &&& state.sealed_through == sealed_at(bytes)
    &&& state.generation == bytes::be_value(bytes.subrange(42, 50))
    &&& state.tree_sizes.sapling == codec::number_at(bytes, 50)
    &&& state.tree_sizes.orchard == codec::number_at(bytes, 54)
    &&& state.tree_sizes.ironwood == codec::number_at(bytes, 58)
}

/// Writes the state of an index that has blocks.
pub fn encode_state(state: IndexState) -> (bytes: Vec<u8>)
    requires
        state@.durable_tip is Some,
    ensures
        bytes@ == state_bytes(state@),
{
    let tip: BlockId = state.durable_tip.unwrap();
    let mut bytes: Vec<u8> = Vec::with_capacity(STATE_BYTES);
    bytes.push(STATE_FORMAT_VERSION);
    bytes::put_u32(&mut bytes, tip.height);
    bytes::append(&mut bytes, tip.hash.as_slice());
    let (flag, sealed): (u8, u32) = match state.sealed_through {
        Some(sealed) => (1, sealed),
        None => (0, 0),
    };
    bytes.push(flag);
    bytes::put_u32(&mut bytes, sealed);
    bytes::put_u64(&mut bytes, state.generation);
    bytes::put_u32(&mut bytes, state.tree_sizes.sapling);
    bytes::put_u32(&mut bytes, state.tree_sizes.orchard);
    bytes::put_u32(&mut bytes, state.tree_sizes.ironwood);
    assert(bytes@ =~= state_bytes(state@));
    bytes
}

/// Reads the state of an index that has blocks.
pub fn decode_state(bytes: &[u8]) -> (decoded: Result<IndexState, IndexError>)
    ensures
        match decoded {
            Ok(state) => is_state(bytes@) && state_matches(bytes@, state@) && state_fits(state@),
            Err(error) => !is_state(bytes@) && error == IndexError::Metadata,
        },
{
    if bytes.len() != STATE_BYTES || bytes[0] != STATE_FORMAT_VERSION || bytes[37] > 1 {
        return Err(IndexError::Metadata);
    }
    let height: u32 = bytes::get_u32(bytes, 1);
    let hash: [u8; 32] = bytes::get_array(bytes, 5);
    let sealed_through: Option<u32> = if bytes[37] == 1 {
        Some(bytes::get_u32(bytes, 38))
    } else {
        None
    };
    if let Some(sealed) = sealed_through {
        if sealed > height || sealed % RANGE_SIZE != RANGE_SIZE - 1 {
            return Err(IndexError::Metadata);
        }
    }
    Ok(
        IndexState {
            durable_tip: Some(BlockId::new(height, hash)),
            sealed_through,
            generation: bytes::get_u64(bytes, 42),
            tree_sizes: TreeSizes {
                sapling: bytes::get_u32(bytes, 50),
                orchard: bytes::get_u32(bytes, 54),
                ironwood: bytes::get_u32(bytes, 58),
            },
        },
    )
}

/// The state that the metadata table keeps: that of an empty index where there is none.
pub fn read_state(stored: Option<&[u8]>) -> (state: Result<IndexState, IndexError>)
    ensures
        match (stored, state) {
            (None, Ok(state)) => state@ == empty_state(),
            (None, Err(_)) => false,
            (Some(bytes), Ok(state)) => is_state(bytes@) && state_matches(bytes@, state@)
                && state_fits(state@),
            (Some(bytes), Err(error)) => !is_state(bytes@) && error == IndexError::Metadata,
        },
{
    match stored {
        None => Ok(IndexState::default()),
        Some(bytes) => decode_state(bytes),
    }
}

/// A state is read back as it was kept: what is decoded from kept bytes is the state itself.
pub proof fn law_state_round_trip(state: StateView, decoded: StateView)
    requires
        state.durable_tip is Some,
        state_fits(state),
        state_matches(state_bytes(state), decoded),
    ensures
        is_state(state_bytes(state)),
        decoded == state,
{
    lemma_state_bytes(state);
    let tip = state.durable_tip->Some_0;
    assert(decoded.durable_tip->Some_0.hash =~= tip.hash);
}

/// Kept bytes are those of the state that they say.
pub proof fn lemma_state_bytes(state: StateView)
    requires
        state.durable_tip is Some,
        state_fits(state),
    ensures
        is_state(state_bytes(state)),
        state_matches(state_bytes(state), state),
{
    let whole = state_bytes(state);
    let tip = state.durable_tip->Some_0;
    let sizes = state.tree_sizes;
    bytes::lemma_byte_limits();
    bytes::lemma_be_round_trip(tip.height as nat, 4);
    bytes::lemma_be_round_trip(sealed_number(state.sealed_through), 4);
    bytes::lemma_be_round_trip(state.generation as nat, 8);
    bytes::lemma_be_round_trip(sizes.sapling as nat, 4);
    bytes::lemma_be_round_trip(sizes.orchard as nat, 4);
    bytes::lemma_be_round_trip(sizes.ironwood as nat, 4);
    assert(whole.len() == 62);
    assert(whole.subrange(1, 5) =~= bytes::be_bytes(tip.height as nat, 4));
    assert(whole.subrange(5, 37) =~= tip.hash@);
    assert(whole.subrange(38, 42) =~= bytes::be_bytes(sealed_number(state.sealed_through), 4));
    assert(whole.subrange(42, 50) =~= bytes::be_bytes(state.generation as nat, 8));
    assert(whole.subrange(50, 54) =~= bytes::be_bytes(sizes.sapling as nat, 4));
    assert(whole.subrange(54, 58) =~= bytes::be_bytes(sizes.orchard as nat, 4));
    assert(whole.subrange(58, 62) =~= bytes::be_bytes(sizes.ironwood as nat, 4));
}

// ---------------------------------------------------------------------------
// Identity
// ---------------------------------------------------------------------------

/// What an index was made for: format, policy, chain and network.
pub open spec fn identity_bytes(network: Seq<u8>, genesis_hash: Seq<u8>) -> Seq<u8> {
    bytes::be_bytes(SCHEMA_VERSION as nat, 4) + bytes::be_bytes(RANGE_SIZE as nat, 4)
        + bytes::be_bytes(PERSIST_DEPTH as nat, 4) + bytes::be_bytes(SEAL_DEPTH as nat, 4)
        + genesis_hash + network
}

/// The identity of an index of `network`.
pub fn identity(network: &str, genesis_hash: [u8; 32]) -> (identity: Vec<u8>)
    ensures
        identity@ == identity_bytes(vstd::utf8::encode_utf8(network@), genesis_hash@),
{
    let mut identity: Vec<u8> = Vec::new();
    bytes::put_u32(&mut identity, SCHEMA_VERSION);
    bytes::put_u32(&mut identity, RANGE_SIZE);
    bytes::put_u32(&mut identity, PERSIST_DEPTH);
    bytes::put_u32(&mut identity, SEAL_DEPTH);
    bytes::append(&mut identity, genesis_hash.as_slice());
    bytes::append(&mut identity, network.as_bytes());
    assert(identity@ =~= identity_bytes(vstd::utf8::encode_utf8(network@), genesis_hash@));
    identity
}

/// Decides whether an environment is used: it keeps `stored` already, or `identity` is to be
/// stored there first (`true`), or it belongs to another chain, network or format.
pub fn check_identity(stored: Option<&[u8]>, identity: &[u8]) -> (checked: Result<
    bool,
    IndexError,
>)
    ensures
        match stored {
            None => checked == Ok::<bool, IndexError>(true),
            Some(stored) => checked == (if stored@ == identity@ {
                Ok::<bool, IndexError>(false)
            } else {
                Err(IndexError::Identity)
            }),
        },
{
    match stored {
        None => Ok(true),
        Some(stored) => if bytes::same_bytes(stored, identity) {
            Ok(false)
        } else {
            Err(IndexError::Identity)
        },
    }
}

/// Two indexes have the same identity only where network and genesis hash are the same.
pub proof fn law_identity_tells_chains_apart(
    network: Seq<char>,
    genesis_hash: Seq<u8>,
    other_network: Seq<char>,
    other_genesis_hash: Seq<u8>,
)
    requires
        genesis_hash.len() == 32,
        other_genesis_hash.len() == 32,
        identity_bytes(vstd::utf8::encode_utf8(network), genesis_hash) == identity_bytes(
            vstd::utf8::encode_utf8(other_network),
            other_genesis_hash,
        ),
    ensures
        network == other_network,
        genesis_hash == other_genesis_hash,
{
    let name = vstd::utf8::encode_utf8(network);
    let other_name = vstd::utf8::encode_utf8(other_network);
    let whole = identity_bytes(name, genesis_hash);
    let other = identity_bytes(other_name, other_genesis_hash);
    bytes::lemma_be_bytes_len(SCHEMA_VERSION as nat, 4);
    bytes::lemma_be_bytes_len(RANGE_SIZE as nat, 4);
    bytes::lemma_be_bytes_len(PERSIST_DEPTH as nat, 4);
    bytes::lemma_be_bytes_len(SEAL_DEPTH as nat, 4);
    assert(whole.subrange(16, 48) =~= genesis_hash);
    assert(other.subrange(16, 48) =~= other_genesis_hash);
    assert(whole.subrange(48, whole.len() as int) =~= name);
    assert(other.subrange(48, other.len() as int) =~= other_name);
    vstd::utf8::encode_utf8_decode_utf8(network);
    vstd::utf8::encode_utf8_decode_utf8(other_network);
}

// ---------------------------------------------------------------------------
// Batches
// ---------------------------------------------------------------------------

/// A batch whose ordering and cumulative tree sizes were checked by the ordered builder.
#[derive(Debug)]
pub struct WriteBatch {
    base_generation: u64,
    source_tip: BlockId,
    records: Vec<CompactBlockRecord>,
}

/// A [`WriteBatch`] with its fields in the open.
#[verifier::ext_equal]
pub struct BatchView {
    pub base_generation: u64,
    pub source_tip: BlockId,
    pub records: Seq<RecordView>,
}

/// Batches that a builder can make: some blocks, each on top of the one before it.
pub open spec fn batch_fits(batch: BatchView) -> bool {
    batch.records.len() > 0 && codec::is_chain(batch.records)
}

impl View for WriteBatch {
    type V = BatchView;

    closed spec fn view(&self) -> BatchView {
        BatchView {
            base_generation: self.base_generation,
            source_tip: self.source_tip,
            records: codec::records_view(self.records@),
        }
    }
}

impl WriteBatch {
    #[verifier::type_invariant]
    spec fn inv(self) -> bool {
        batch_fits(self@)
    }

    pub(crate) fn new(
        base_generation: u64,
        source_tip: BlockId,
        records: Vec<CompactBlockRecord>,
    ) -> (batch: Self)
        requires
            records@.len() > 0,
            codec::is_chain(codec::records_view(records@)),
        ensures
            batch@ == (BatchView {
                base_generation,
                source_tip,
                records: codec::records_view(records@),
            }),
    {
        WriteBatch { base_generation, source_tip, records }
    }

    /// Generation of the index that the batch was built on.
    pub fn base_generation(&self) -> (generation: u64)
        ensures
            generation == self@.base_generation,
    {
        self.base_generation
    }

    /// Tip of the chain that the batch was built from.
    pub fn source_tip(&self) -> (tip: BlockId)
        ensures
            tip == self@.source_tip,
    {
        self.source_tip
    }

    /// The blocks, lowest first.
    pub fn records(&self) -> (records: &Vec<CompactBlockRecord>)
        ensures
            codec::records_view(records@) == self@.records,
            batch_fits(self@),
    {
        proof {
            use_type_invariant(self);
        }
        &self.records
    }
}

// ---------------------------------------------------------------------------
// Writing
// ---------------------------------------------------------------------------

/// What one block adds to the index: its encoded record under its height, and its height under its
/// hash.
#[derive(Clone, Debug, PartialEq, Eq)]
pub struct IndexRow {
    pub height: u32,
    pub hash: [u8; 32],
    pub bytes: Vec<u8>,
}

/// The first step of a write: the rows to put, and the state that the write goes on with.
#[derive(Clone, Debug)]
pub struct WriteStart {
    pub rows: Vec<IndexRow>,
    pub state: IndexState,
}

/// Why an index in `state` refuses `batch`, if it does.
pub open spec fn write_refusal(state: StateView, batch: BatchView) -> Option<IndexError> {
    let first = batch.records[0];
    let stale = IndexError::StaleBatch { batch_generation: batch.base_generation };
    match state.durable_tip {
        None => if state.generation != batch.base_generation || first.height != 0 {
            Some(stale)
        } else {
            None
        },
        Some(tip) => if tip.height == u32::MAX {
            Some(IndexError::Overflow)
        } else if state.generation != batch.base_generation || first.height != tip.height + 1
            || first.previous_hash != tip.hash@ {
            Some(stale)
        } else {
            None
        },
    }
}

/// `row` is what `record` adds.
pub open spec fn is_row_of(row: IndexRow, record: RecordView) -> bool {
    row.height == record.height && row.hash@ == record.hash && row.bytes@ == codec::record_bytes(
        record,
    )
}

/// `tip` is the block of `record`.
pub open spec fn is_id_of(id: BlockId, record: RecordView) -> bool {
    id.height == record.height && id.hash@ == record.hash
}

/// `after` is `before` with the block of `record` as its tip.
pub open spec fn has_new_tip(before: StateView, record: RecordView, after: StateView) -> bool {
    &&& after.durable_tip matches Some(tip) && is_id_of(tip, record)
    &&& after.tree_sizes == record.end_tree_sizes
    &&& after.sealed_through == before.sealed_through
    &&& after.generation == before.generation
}

/// Checks a batch against the state and lays out its rows.
pub fn begin_write(state: IndexState, batch: &WriteBatch) -> (begun: Result<WriteStart, IndexError>)
    ensures
        match write_refusal(state@, batch@) {
            Some(error) => begun == Err::<WriteStart, IndexError>(error),
            None => match begun {
                Err(error) => error == IndexError::Codec(CodecError::Length)
                    && !codec::all_encodable(batch@.records),
                Ok(start) => {
                    &&& codec::all_encodable(batch@.records)
                    &&& start.rows@.len() == batch@.records.len()
                    &&& forall|i: int|
                        0 <= i < start.rows@.len() ==> is_row_of(
                            #[trigger] start.rows@[i],
                            batch@.records[i],
                        )
                    &&& has_new_tip(state@, batch@.records.last(), start.state@)
                },
            },
        },
{
    let records = batch.records();
    proof {
        use_type_invariant(&state);
    }
    let ghost views = batch@.records;
    let first = &records[0];
    let last = &records[records.len() - 1];
    proof {
        assert(views[0] == first@);
        assert(views.last() == last@);
        codec::lemma_chain_heights(views, views.len() - 1);
    }
    let stale: bool = match state.durable_tip {
        Some(tip) => {
            let expected_height: u32 = match tip.height.checked_add(1) {
                Some(height) => height,
                None => return Err(IndexError::Overflow),
            };
            state.generation != batch.base_generation() || first.height != expected_height
                || !bytes::same_bytes(first.previous_hash.as_slice(), tip.hash.as_slice())
        },
        None => state.generation != batch.base_generation() || first.height != 0,
    };
    if stale {
        return Err(IndexError::StaleBatch { batch_generation: batch.base_generation() });
    }
    let mut rows: Vec<IndexRow> = Vec::with_capacity(records.len());
    let mut i: usize = 0;
    while i < records.len()
        invariant
            i <= records@.len(),
            views == batch@.records,
            views == codec::records_view(records@),
            write_refusal(state@, batch@) is None,
            rows@.len() == i,
            forall|j: int| 0 <= j < i ==> is_row_of(#[trigger] rows@[j], views[j]),
            forall|j: int| 0 <= j < i ==> codec::is_encodable(#[trigger] views[j]),
        decreases records@.len() - i,
    {
        let record = &records[i];
        assert(views[i as int] == record@);
        let bytes = match record.encode() {
            Ok(bytes) => bytes,
            Err(error) => {
                assert(!codec::is_encodable(views[i as int]));
                return Err(IndexError::Codec(error));
            },
        };
        rows.push(IndexRow { height: record.height, hash: record.hash, bytes });
        i = i + 1;
    }
    let state = IndexState {
        durable_tip: Some(BlockId::new(last.height, last.hash)),
        sealed_through: state.sealed_through,
        generation: state.generation,
        tree_sizes: last.end_tree_sizes,
    };
    Ok(WriteStart { rows, state })
}

/// Number of blocks in sealed ranges.
pub open spec fn sealed_blocks(state: StateView) -> nat {
    match state.sealed_through {
        None => 0,
        Some(height) => (height + 1) as nat,
    }
}

/// The first height of the next range to be sealed, if its end lies deep enough below the tip of
/// the chain and is indexed.
pub open spec fn range_due(state: StateView, source_height: u32) -> Result<
    Option<u32>,
    IndexError,
> {
    let start = sealed_blocks(state);
    let end = start + 999;
    if source_height < SEAL_DEPTH {
        Ok(None)
    } else if end > u32::MAX {
        Err(IndexError::Overflow)
    } else if end > source_height - SEAL_DEPTH || state.durable_tip is None
        || end > state.durable_tip->Some_0.height {
        Ok(None)
    } else {
        Ok(Some(start as u32))
    }
}

/// Decides whether another range is to be sealed.
pub fn next_range(state: &IndexState, source_height: u32) -> (due: Result<Option<u32>, IndexError>)
    ensures
        due == range_due(state@, source_height),
{
    proof {
        use_type_invariant(state);
    }
    if source_height < SEAL_DEPTH {
        return Ok(None);
    }
    let seal_cutoff: u32 = source_height - SEAL_DEPTH;
    let start: u32 = match state.sealed_through {
        Some(height) => match height.checked_add(1) {
            Some(start) => start,
            None => return Err(IndexError::Overflow),
        },
        None => 0,
    };
    let end: u32 = match start.checked_add(RANGE_SIZE - 1) {
        Some(end) => end,
        None => return Err(IndexError::Overflow),
    };
    if end > seal_cutoff {
        return Ok(None);
    }
    match state.durable_tip {
        Some(tip) => if end > tip.height {
            Ok(None)
        } else {
            Ok(Some(start))
        },
        None => Ok(None),
    }
}

/// The rows that a range is sealed from, as sequences.
pub open spec fn rows_view(rows: Seq<Option<Vec<u8>>>) -> Seq<Option<Seq<u8>>> {
    Seq::new(
        rows.len(),
        |i: int|
            match rows[i] {
                None => None,
                Some(bytes) => Some(bytes@),
            },
    )
}

/// The records of the first `count` rows of the range at `start`, or what is wrong with the first
/// bad one.
pub open spec fn read_rows(start: u32, rows: Seq<Option<Seq<u8>>>, count: nat) -> Result<
    Seq<RecordView>,
    IndexError,
>
    decreases count,
{
    if count == 0 {
        Ok(Seq::empty())
    } else {
        match read_rows(start, rows, (count - 1) as nat) {
            Err(error) => Err(error),
            Ok(records) => match rows[count - 1] {
                None => Err(IndexError::IncompleteRange { start }),
                Some(bytes) => match codec::read_record(bytes) {
                    Err(error) => Err(IndexError::Codec(error)),
                    Ok(record) => Ok(records.push(record)),
                },
            },
        }
    }
}

/// The sealed range that rows make, or why they make none.
pub open spec fn sealed_bytes(start: u32, rows: Seq<Option<Seq<u8>>>) -> Result<
    Seq<u8>,
    IndexError,
> {
    match read_rows(start, rows, rows.len()) {
        Err(error) => Err(error),
        Ok(records) => if !codec::is_range(records) {
            Err(IndexError::Codec(CodecError::InvalidRange))
        } else if !codec::all_encodable(records) {
            Err(IndexError::Codec(CodecError::Length))
        } else {
            Ok(codec::range_bytes(records))
        },
    }
}

proof fn lemma_read_rows_fails(start: u32, rows: Seq<Option<Seq<u8>>>, count: nat, all: nat)
    requires
        count <= all,
        read_rows(start, rows, count) is Err,
    ensures
        read_rows(start, rows, all) == read_rows(start, rows, count),
    decreases all,
{
    if count < all {
        lemma_read_rows_fails(start, rows, count, (all - 1) as nat);
    }
}

/// A sealed range, and the state once it is sealed.
#[derive(Clone, Debug)]
pub struct SealedRange {
    pub bytes: Vec<u8>,
    pub state: IndexState,
}

/// Seals the range that is due from its rows, one for each height from `start` on.
pub fn seal_range(state: IndexState, start: u32, rows: &[Option<Vec<u8>>]) -> (sealed: Result<
    SealedRange,
    IndexError,
>)
    requires
        start == sealed_blocks(state@),
        state@.durable_tip matches Some(tip) && start + 999 <= tip.height,
    ensures
        match (sealed_bytes(start, rows_view(rows@)), sealed) {
            (Err(error), Err(actual)) => actual == error,
            (Ok(bytes), Ok(range)) => range.bytes@ == bytes && range.state@ == (StateView {
                sealed_through: Some((start + 999) as u32),
                ..state@
            }),
            _ => false,
        },
{
    proof {
        use_type_invariant(&state);
    }
    let ghost views = rows_view(rows@);
    let mut records: Vec<CompactBlockRecord> = Vec::with_capacity(rows.len());
    let mut i: usize = 0;
    assert(codec::records_view(records@) =~= Seq::empty());
    while i < rows.len()
        invariant
            i <= rows@.len(),
            views == rows_view(rows@),
            read_rows(start, views, i as nat) == Ok::<Seq<RecordView>, IndexError>(
                codec::records_view(records@),
            ),
        decreases rows@.len() - i,
    {
        let ghost done = codec::records_view(records@);
        match &rows[i] {
            None => {
                proof {
                    lemma_read_rows_fails(start, views, (i + 1) as nat, rows@.len());
                }
                return Err(IndexError::IncompleteRange { start });
            },
            Some(bytes) => {
                match CompactBlockRecord::decode(bytes.as_slice()) {
                    Err(error) => {
                        proof {
                            lemma_read_rows_fails(start, views, (i + 1) as nat, rows@.len());
                        }
                        return Err(IndexError::Codec(error));
                    },
                    Ok(record) => {
                        records.push(record);
                        assert(codec::records_view(records@) =~= done.push(record@));
                    },
                }
            },
        }
        i = i + 1;
    }
    let bytes = match codec::encode_range(records.as_slice()) {
        Ok(bytes) => bytes,
        Err(error) => return Err(IndexError::Codec(error)),
    };
    Ok(
        SealedRange {
            bytes,
            state: IndexState {
                durable_tip: state.durable_tip,
                sealed_through: Some(start + (RANGE_SIZE - 1)),
                generation: state.generation,
                tree_sizes: state.tree_sizes,
            },
        },
    )
}

/// The last step of a write: the state of the next generation, and its bytes.
pub fn finish_write(state: IndexState) -> (finished: Result<(IndexState, Vec<u8>), IndexError>)
    requires
        state@.durable_tip is Some,
    ensures
        match finished {
            Ok((next, bytes)) => state@.generation < u64::MAX && next@ == (StateView {
                generation: (state@.generation + 1) as u64,
                ..state@
            }) && bytes@ == state_bytes(next@),
            Err(error) => state@.generation == u64::MAX && error == IndexError::Overflow,
        },
{
    proof {
        use_type_invariant(&state);
    }
    let generation: u64 = match state.generation.checked_add(1) {
        Some(generation) => generation,
        None => return Err(IndexError::Overflow),
    };
    let next = IndexState {
        durable_tip: state.durable_tip,
        sealed_through: state.sealed_through,
        generation,
        tree_sizes: state.tree_sizes,
    };
    let bytes = encode_state(next);
    Ok((next, bytes))
}

// ---------------------------------------------------------------------------
// Continuity
// ---------------------------------------------------------------------------

/// Where the record of a block lies.
#[derive(Clone, Copy, Debug, PartialEq, Eq)]
pub enum RecordPlace {
    /// In the range that begins at `start`, as record `index`.
    Sealed { start: u32, index: usize },
    /// Among the mutable blocks.
    Mutable { height: u32 },
}

/// Where an index in `state` keeps the record of the block at `height`.
pub open spec fn place_of(state: StateView, height: u32) -> RecordPlace {
    if height < sealed_blocks(state) {
        RecordPlace::Sealed {
            start: (height as int - height as int % 1000) as u32,
            index: (height as int % 1000) as usize,
        }
    } else {
        RecordPlace::Mutable { height }
    }
}

/// Where an index keeps the record of the block at `height`.
pub fn record_place(state: &IndexState, height: u32) -> (place: RecordPlace)
    ensures
        place == place_of(state@, height),
{
    let sealed: bool = match state.sealed_through {
        Some(sealed) => height <= sealed,
        None => false,
    };
    if sealed {
        RecordPlace::Sealed {
            start: height - height % RANGE_SIZE,
            index: (height % RANGE_SIZE) as usize,
        }
    } else {
        RecordPlace::Mutable { height }
    }
}

/// Where the record of a height is to be read by a reader who has seen the index at `generation`;
/// the index must still be there, and must have come as far as the height.
pub fn readable_place(state: &IndexState, generation: u64, height: u32) -> (place: Result<
    RecordPlace,
    IndexError,
>)
    ensures
        place == (if state@.generation != generation {
            Err::<RecordPlace, IndexError>(IndexError::Generation { generation })
        } else if state@.durable_tip matches Some(tip) && height <= tip.height {
            Ok(place_of(state@, height))
        } else {
            Err(IndexError::Coverage { height })
        }),
{
    if state.generation != generation {
        return Err(IndexError::Generation { generation });
    }
    match state.durable_tip {
        Some(tip) => if height <= tip.height {
            Ok(record_place(state, height))
        } else {
            Err(IndexError::Coverage { height })
        },
        None => Err(IndexError::Coverage { height }),
    }
}

/// The record at a place, from what is stored there.
pub open spec fn read_place(place: RecordPlace, bytes: Seq<u8>) -> Result<RecordView, CodecError> {
    match place {
        RecordPlace::Sealed { start, index } => codec::read_range_record(bytes, index as int),
        RecordPlace::Mutable { height } => codec::read_record(bytes),
    }
}

/// Reads the record at a place from what is stored there.
pub fn decode_place(place: RecordPlace, bytes: &[u8]) -> (decoded: Result<
    CompactBlockRecord,
    CodecError,
>)
    ensures
        match decoded {
            Ok(record) => read_place(place, bytes@) == Ok::<RecordView, CodecError>(record@),
            Err(error) => read_place(place, bytes@) == Err::<RecordView, CodecError>(error),
        },
{
    match place {
        RecordPlace::Sealed { start: _, index } => codec::decode_range_record(bytes, index),
        RecordPlace::Mutable { height: _ } => CompactBlockRecord::decode(bytes),
    }
}

/// A walk over the tables of an index, lowest height first, that checks sealed-range summaries and
/// every mutable row without rescanning sealed blocks.
#[derive(Clone, Copy, Debug)]
pub struct ContinuityCheck {
    state: IndexState,
    next_height: u64,
    previous_hash: Option<[u8; 32]>,
}

/// A [`ContinuityCheck`] with its fields in the open.
#[verifier::ext_equal]
pub struct CheckView {
    pub state: StateView,
    pub next_height: nat,
    pub previous_hash: Option<Seq<u8>>,
}

/// Checks that are under way: the index has a tip, and heights stay within what a row's key holds.
pub open spec fn check_fits(check: CheckView) -> bool {
    check.state.durable_tip is Some && state_fits(check.state) && check.next_height
        <= 0x1_0000_0000 + 1000
}

/// The number in the lower 32 bits of a height.
pub open spec fn short_height(height: nat) -> u32 {
    (height % 0x1_0000_0000) as u32
}

/// How a check begins, by the number of rows in each table: nothing is left to check in an index
/// without blocks.
pub open spec fn check_start(
    state: StateView,
    sealed_rows: nat,
    mutable_rows: nat,
    hash_rows: nat,
) -> Result<Option<CheckView>, IndexError> {
    match state.durable_tip {
        None => if sealed_rows != 0 || mutable_rows != 0 || hash_rows != 0 {
            Err(IndexError::Metadata)
        } else {
            Ok(None)
        },
        Some(tip) => if sealed_rows != sealed_blocks(state) / 1000 || mutable_rows != tip.height + 1
            - sealed_blocks(state) || hash_rows != tip.height + 1 {
            Err(IndexError::Continuity { height: 0 })
        } else {
            Ok(Some(CheckView { state, next_height: 0, previous_hash: None }))
        },
    }
}

/// First and last record of the next sealed range, or what is wrong with it.
pub open spec fn check_range(check: CheckView, start: u32, bytes: Seq<u8>) -> Result<
    (RecordView, RecordView),
    IndexError,
> {
    if start != check.next_height {
        Err(IndexError::Continuity { height: short_height(check.next_height) })
    } else {
        match codec::read_range_record(bytes, 0) {
            Err(error) => Err(IndexError::Codec(error)),
            Ok(first) => match codec::read_range_record(bytes, 999) {
                Err(error) => Err(IndexError::Codec(error)),
                Ok(last) => if check.previous_hash is Some && check.previous_hash != Some(
                    first.previous_hash,
                ) {
                    Err(IndexError::Continuity { height: start })
                } else {
                    Ok((first, last))
                },
            },
        }
    }
}

/// The check behind `count` blocks that end with the hash `hash`.
pub open spec fn check_past(check: CheckView, count: nat, hash: Seq<u8>) -> CheckView {
    CheckView {
        state: check.state,
        next_height: check.next_height + count,
        previous_hash: Some(hash),
    }
}

/// The ranges end where the state says.
pub open spec fn check_ranges_end(check: CheckView) -> Result<(), IndexError> {
    if check.next_height != sealed_blocks(check.state) {
        Err(IndexError::Continuity { height: short_height(check.next_height) })
    } else {
        Ok(())
    }
}

/// The record of the next mutable row, or what is wrong with it.
pub open spec fn check_row(check: CheckView, height: u32, bytes: Seq<u8>) -> Result<
    RecordView,
    IndexError,
> {
    if height != check.next_height {
        Err(IndexError::Continuity { height: short_height(check.next_height) })
    } else {
        match codec::read_record(bytes) {
            Err(error) => Err(IndexError::Codec(error)),
            Ok(record) => if record.height != height || (check.previous_hash is Some
                && check.previous_hash != Some(record.previous_hash)) {
                Err(IndexError::Continuity { height })
            } else {
                Ok(record)
            },
        }
    }
}

/// What the hash table must say of a block.
pub open spec fn check_hash(height: u32, found: Option<u32>) -> Result<(), IndexError> {
    if found == Some(height) {
        Ok(())
    } else {
        Err(IndexError::HashIndex { height })
    }
}

/// How a check ends, by what is stored at the place of the tip.
pub open spec fn check_tip(check: CheckView, stored: Option<Seq<u8>>) -> Result<(), IndexError> {
    let tip = check.state.durable_tip->Some_0;
    match stored {
        None => Err(IndexError::Continuity { height: tip.height }),
        Some(bytes) => match read_place(place_of(check.state, tip.height), bytes) {
            Err(error) => Err(IndexError::Codec(error)),
            Ok(record) => if check.next_height != tip.height + 1 || check.previous_hash != Some(
                tip.hash@,
            ) || check.state.tree_sizes != record.end_tree_sizes {
                Err(IndexError::Continuity { height: tip.height })
            } else {
                Ok(())
            },
        },
    }
}

/// Checks what the hash table says of a block.
pub fn verify_hash_entry(block: &BlockId, found: Option<u32>) -> (verified: Result<(), IndexError>)
    ensures
        verified == check_hash(block.height, found),
{
    match found {
        Some(height) => if height == block.height {
            Ok(())
        } else {
            Err(IndexError::HashIndex { height: block.height })
        },
        None => Err(IndexError::HashIndex { height: block.height }),
    }
}

fn same_sizes(left: TreeSizes, right: TreeSizes) -> (same: bool)
    ensures
        same == (left == right),
{
    left.sapling == right.sapling && left.orchard == right.orchard && left.ironwood
        == right.ironwood
}

impl View for ContinuityCheck {
    type V = CheckView;

    closed spec fn view(&self) -> CheckView {
        CheckView {
            state: self.state@,
            next_height: self.next_height as nat,
            previous_hash: match self.previous_hash {
                None => None,
                Some(hash) => Some(hash@),
            },
        }
    }
}

impl ContinuityCheck {
    /// Begins a check, by the number of rows in each table.
    pub fn start(state: IndexState, sealed_rows: u64, mutable_rows: u64, hash_rows: u64) -> (begun:
        Result<Option<Self>, IndexError>)
        ensures
            match (
                check_start(state@, sealed_rows as nat, mutable_rows as nat, hash_rows as nat),
                begun,
            ) {
                (Err(error), Err(actual)) => actual == error,
                (Ok(None), Ok(None)) => true,
                (Ok(Some(view)), Ok(Some(check))) => check@ == view && check_fits(check@),
                _ => false,
            },
    {
        proof {
            use_type_invariant(&state);
        }
        let tip: BlockId = match state.durable_tip {
            None => {
                if sealed_rows != 0 || mutable_rows != 0 || hash_rows != 0 {
                    return Err(IndexError::Metadata);
                }
                return Ok(None);
            },
            Some(tip) => tip,
        };
        let sealed_blocks: u64 = match state.sealed_through {
            Some(height) => height as u64 + 1,
            None => 0,
        };
        if sealed_rows != sealed_blocks / RANGE_SIZE as u64 || mutable_rows != tip.height as u64 + 1
            - sealed_blocks || hash_rows != tip.height as u64 + 1 {
            return Err(IndexError::Continuity { height: 0 });
        }
        Ok(Some(ContinuityCheck { state, next_height: 0, previous_hash: None }))
    }

    fn follows(&self, previous_hash: &[u8; 32]) -> (follows: bool)
        ensures
            follows == !(self@.previous_hash is Some && self@.previous_hash != Some(
                previous_hash@,
            )),
    {
        match &self.previous_hash {
            None => true,
            Some(hash) => bytes::same_bytes(previous_hash.as_slice(), hash.as_slice()),
        }
    }

    fn short_next_height(&self) -> (height: u32)
        ensures
            height == short_height(self@.next_height),
    {
        (self.next_height % 0x1_0000_0000) as u32
    }

    /// Checks the next row of the sealed ranges: its first and last block, whose hashes are to be
    /// looked up.
    pub fn open_range(&self, start: u32, bytes: &[u8]) -> (opened: Result<
        (BlockId, BlockId),
        IndexError,
    >)
        ensures
            match (check_range(self@, start, bytes@), opened) {
                (Err(error), Err(actual)) => actual == error,
                (Ok((first, last)), Ok((first_id, last_id))) => is_id_of(first_id, first)
                    && is_id_of(last_id, last) && start == self@.next_height,
                _ => false,
            },
    {
        if start as u64 != self.next_height {
            return Err(IndexError::Continuity { height: self.short_next_height() });
        }
        let first = match codec::decode_range_record(bytes, 0) {
            Ok(first) => first,
            Err(error) => return Err(IndexError::Codec(error)),
        };
        let last = match codec::decode_range_record(bytes, RANGE_SIZE as usize - 1) {
            Ok(last) => last,
            Err(error) => return Err(IndexError::Codec(error)),
        };
        if !self.follows(&first.previous_hash) {
            return Err(IndexError::Continuity { height: start });
        }
        Ok((BlockId::new(first.height, first.hash), BlockId::new(last.height, last.hash)))
    }

    /// Goes on behind a sealed range that ends with `last`.
    pub fn close_range(&mut self, last: &BlockId)
        requires
            check_fits(old(self)@),
            old(self)@.next_height <= u32::MAX,
        ensures
            final(self)@ == check_past(old(self)@, 1000, last.hash@),
            check_fits(final(self)@),
    {
        self.previous_hash = Some(last.hash);
        self.next_height = self.next_height + RANGE_SIZE as u64;
    }

    /// Checks that the sealed ranges end where the state says.
    pub fn end_ranges(&self) -> (ended: Result<(), IndexError>)
        ensures
            ended == check_ranges_end(self@),
    {
        let sealed_blocks: u64 = match self.state.sealed_through {
            Some(height) => height as u64 + 1,
            None => 0,
        };
        if self.next_height != sealed_blocks {
            return Err(IndexError::Continuity { height: self.short_next_height() });
        }
        Ok(())
    }

    /// Checks the next mutable row: its block, whose hash is to be looked up.
    pub fn open_row(&self, height: u32, bytes: &[u8]) -> (opened: Result<BlockId, IndexError>)
        ensures
            match (check_row(self@, height, bytes@), opened) {
                (Err(error), Err(actual)) => actual == error,
                (Ok(record), Ok(id)) => is_id_of(id, record) && height == self@.next_height,
                _ => false,
            },
    {
        if height as u64 != self.next_height {
            return Err(IndexError::Continuity { height: self.short_next_height() });
        }
        let record = match CompactBlockRecord::decode(bytes) {
            Ok(record) => record,
            Err(error) => return Err(IndexError::Codec(error)),
        };
        if record.height != height || !self.follows(&record.previous_hash) {
            return Err(IndexError::Continuity { height });
        }
        Ok(BlockId::new(record.height, record.hash))
    }

    /// Goes on behind the mutable row of `block`.
    pub fn close_row(&mut self, block: &BlockId)
        requires
            check_fits(old(self)@),
            old(self)@.next_height <= u32::MAX,
        ensures
            final(self)@ == check_past(old(self)@, 1, block.hash@),
            check_fits(final(self)@),
    {
        self.previous_hash = Some(block.hash);
        self.next_height = self.next_height + 1;
    }

    /// Where the record of the tip lies.
    pub fn tip_place(&self) -> (place: RecordPlace)
        requires
            check_fits(self@),
        ensures
            place == place_of(self@.state, self@.state.durable_tip->Some_0.height),
    {
        record_place(&self.state, self.state.durable_tip.unwrap().height)
    }

    /// Ends the check, by what is stored at the place of the tip.
    pub fn finish(&self, stored: Option<&[u8]>) -> (finished: Result<(), IndexError>)
        requires
            check_fits(self@),
        ensures
            finished == check_tip(
                self@,
                match stored {
                    None => None,
                    Some(bytes) => Some(bytes@),
                },
            ),
    {
        let tip: BlockId = self.state.durable_tip.unwrap();
        let bytes = match stored {
            None => return Err(IndexError::Continuity { height: tip.height }),
            Some(bytes) => bytes,
        };
        let record = match decode_place(self.tip_place(), bytes) {
            Ok(record) => record,
            Err(error) => return Err(IndexError::Codec(error)),
        };
        let ends_at_tip: bool = match &self.previous_hash {
            None => false,
            Some(hash) => bytes::same_bytes(hash.as_slice(), tip.hash.as_slice()),
        };
        if self.next_height != tip.height as u64 + 1 || !ends_at_tip || !same_sizes(
            self.state.tree_sizes,
            record.end_tree_sizes,
        ) {
            return Err(IndexError::Continuity { height: tip.height });
        }
        Ok(())
    }
}

// ---------------------------------------------------------------------------
// Laws
// ---------------------------------------------------------------------------

/// An index without blocks has no tip and nothing sealed, and its numbers are zero.
pub proof fn law_empty_index_has_nothing()
    ensures
        empty_state().durable_tip is None,
        empty_state().sealed_through is None,
        empty_state().generation == 0,
        empty_state().tree_sizes.sapling == 0,
        empty_state().tree_sizes.orchard == 0,
        empty_state().tree_sizes.ironwood == 0,
{
}

/// A state is kept in 62 bytes, each field at its place and highest byte first: version, height and
/// hash of the tip, whether and up to where blocks are sealed, generation, and the sizes of the
/// Sapling, Orchard and Ironwood trees.
pub proof fn law_state_is_laid_out_in_order(state: StateView)
    requires
        state.durable_tip is Some,
        state_fits(state),
    ensures
        ({
            let bytes = state_bytes(state);
            let tip = state.durable_tip->Some_0;
            &&& bytes.len() == 62
            &&& bytes[0] == 1
            &&& bytes::be_value(bytes.subrange(1, 5)) == tip.height
            &&& bytes.subrange(5, 37) == tip.hash@
            &&& bytes[37] == if state.sealed_through is Some {
                1u8
            } else {
                0u8
            }
            &&& bytes::be_value(bytes.subrange(38, 42)) == match state.sealed_through {
                Some(height) => height as int,
                None => 0,
            }
            &&& bytes::be_value(bytes.subrange(42, 50)) == state.generation
            &&& bytes::be_value(bytes.subrange(50, 54)) == state.tree_sizes.sapling
            &&& bytes::be_value(bytes.subrange(54, 58)) == state.tree_sizes.orchard
            &&& bytes::be_value(bytes.subrange(58, 62)) == state.tree_sizes.ironwood
        }),
{
    let whole = state_bytes(state);
    lemma_state_bytes(state);
    bytes::lemma_byte_limits();
    bytes::lemma_be_round_trip(state.durable_tip->Some_0.height as nat, 4);
    bytes::lemma_be_round_trip(sealed_number(state.sealed_through), 4);
    bytes::lemma_be_round_trip(state.generation as nat, 8);
    bytes::lemma_be_round_trip(state.tree_sizes.sapling as nat, 4);
    bytes::lemma_be_round_trip(state.tree_sizes.orchard as nat, 4);
    bytes::lemma_be_round_trip(state.tree_sizes.ironwood as nat, 4);
    assert(whole.subrange(38, 42) =~= bytes::be_bytes(sealed_number(state.sealed_through), 4));
}

/// Bytes are a state exactly where there are 62 of them, of version one, with a flag of zero or one,
/// and with a sealed height, if any, that ends a range of a thousand at or below the tip; the state
/// then has what each place says.
pub proof fn law_states_are_read_at_their_places(bytes: Seq<u8>, state: StateView)
    ensures
        is_state(bytes) <==> {
            &&& bytes.len() == 62
            &&& bytes[0] == 1
            &&& bytes[37] == 0 || bytes[37] == 1 && bytes::be_value(bytes.subrange(38, 42))
                <= bytes::be_value(bytes.subrange(1, 5)) && bytes::be_value(
                bytes.subrange(38, 42),
            ) % 1000 == 999
        },
        is_state(bytes) && state_matches(bytes, state) ==> {
            &&& state.durable_tip matches Some(tip) && tip.height == bytes::be_value(
                bytes.subrange(1, 5),
            ) && tip.hash@ == bytes.subrange(5, 37)
            &&& bytes[37] == 0 ==> state.sealed_through is None
            &&& bytes[37] == 1 ==> state.sealed_through == Some(
                bytes::be_value(bytes.subrange(38, 42)) as u32,
            )
            &&& state.generation == bytes::be_value(bytes.subrange(42, 50))
            &&& state.tree_sizes.sapling == bytes::be_value(bytes.subrange(50, 54))
            &&& state.tree_sizes.orchard == bytes::be_value(bytes.subrange(54, 58))
            &&& state.tree_sizes.ironwood == bytes::be_value(bytes.subrange(58, 62))
        },
{
    if bytes.len() == 62 {
        bytes::lemma_byte_limits();
        bytes::lemma_be_value_round_trip(bytes.subrange(1, 5));
        bytes::lemma_be_value_round_trip(bytes.subrange(38, 42));
    }
}

/// An identity spells the schema, the size of a range, both depths, the genesis hash and the
/// network, in this order.
pub proof fn law_identity_is_laid_out_in_order(network: Seq<u8>, genesis_hash: Seq<u8>)
    requires
        genesis_hash.len() == 32,
    ensures
        ({
            let bytes = identity_bytes(network, genesis_hash);
            &&& bytes.len() == 48 + network.len()
            &&& bytes::be_value(bytes.subrange(0, 4)) == 1
            &&& bytes::be_value(bytes.subrange(4, 8)) == 1000
            &&& bytes::be_value(bytes.subrange(8, 12)) == 10
            &&& bytes::be_value(bytes.subrange(12, 16)) == 100
            &&& bytes.subrange(16, 48) == genesis_hash
            &&& bytes.skip(48) == network
        }),
{
    let bytes = identity_bytes(network, genesis_hash);
    bytes::lemma_byte_limits();
    bytes::lemma_be_round_trip(1, 4);
    bytes::lemma_be_round_trip(1000, 4);
    bytes::lemma_be_round_trip(10, 4);
    bytes::lemma_be_round_trip(100, 4);
    assert(bytes.subrange(0, 4) =~= bytes::be_bytes(1, 4));
    assert(bytes.subrange(4, 8) =~= bytes::be_bytes(1000, 4));
    assert(bytes.subrange(8, 12) =~= bytes::be_bytes(10, 4));
    assert(bytes.subrange(12, 16) =~= bytes::be_bytes(100, 4));
    assert(bytes.subrange(16, 48) =~= genesis_hash);
    assert(bytes.skip(48) =~= network);
}

/// An index takes a batch exactly where it was built on the index's generation and its first block
/// is on top of the index's tip: one height above it and with its hash as parent, or at zero in an
/// empty index. Behind the last height that 32 bits hold nothing follows.
pub proof fn law_batches_must_follow_the_tip(state: StateView, batch: BatchView)
    requires
        batch.records.len() > 0,
    ensures
        write_refusal(state, batch) is None <==> state.generation == batch.base_generation && (
        match state.durable_tip {
            None => batch.records[0].height == 0,
            Some(tip) => batch.records[0].height == tip.height + 1
                && batch.records[0].previous_hash == tip.hash@,
        }),
        write_refusal(state, batch) matches Some(error) ==> error == if (
        state.durable_tip matches Some(tip) && tip.height == 4_294_967_295) {
            IndexError::Overflow
        } else {
            IndexError::StaleBatch { batch_generation: batch.base_generation }
        },
{
}

/// A written block is kept as its encoded record under its own height and hash, and the state goes
/// on to the last block of the batch, with its height, hash and tree sizes, and with nothing more
/// sealed.
pub proof fn law_written_rows_are_the_blocks(
    row: IndexRow,
    before: StateView,
    record: RecordView,
    after: StateView,
)
    ensures
        is_row_of(row, record) <==> row.height == record.height && row.hash@ == record.hash
            && row.bytes@ == codec::record_bytes(record),
        has_new_tip(before, record, after) <==> {
            &&& after.durable_tip matches Some(tip) && tip.height == record.height && tip.hash@
                == record.hash
            &&& after.tree_sizes.sapling == record.end_tree_sizes.sapling
            &&& after.tree_sizes.orchard == record.end_tree_sizes.orchard
            &&& after.tree_sizes.ironwood == record.end_tree_sizes.ironwood
            &&& after.sealed_through == before.sealed_through
            &&& after.generation == before.generation
        },
{
}

/// The next range to seal begins right behind the last sealed height, or at zero. It is due exactly
/// where all its thousand blocks are indexed and lie a hundred or more below the tip of the chain.
pub proof fn law_ranges_are_sealed_in_depth(state: StateView, source_height: u32)
    ensures
        ({
            let start: int = match state.sealed_through {
                None => 0,
                Some(height) => height + 1,
            };
            let end = start + 999;
            &&& sealed_blocks(state) == start
            &&& match range_due(state, source_height) {
                Ok(Some(due)) => due == start && end + 100 <= source_height && (
                state.durable_tip matches Some(tip) && end <= tip.height),
                Ok(None) => end + 100 > source_height || state.durable_tip is None || end
                    > state.durable_tip->Some_0.height,
                Err(error) => error == IndexError::Overflow && end > 4_294_967_295,
            }
        }),
{
}

proof fn lemma_read_rows(start: u32, rows: Seq<Option<Seq<u8>>>, count: nat)
    requires
        read_rows(start, rows, count) is Ok,
        count <= rows.len(),
    ensures
        read_rows(start, rows, count)->Ok_0.len() == count,
        forall|i: int|
            0 <= i < count ==> #[trigger] rows[i] is Some && codec::read_record(rows[i]->Some_0)
                == Ok::<RecordView, CodecError>(read_rows(start, rows, count)->Ok_0[i]),
    decreases count,
{
    if count > 0 {
        lemma_read_rows(start, rows, (count - 1) as nat);
    }
}

/// Sealing loses nothing: where a thousand rows are sealed, each of them was there, and record `i`
/// of the sealed range is read back as the record of row `i`.
pub proof fn law_sealing_keeps_every_record(start: u32, rows: Seq<Option<Vec<u8>>>, i: int)
    requires
        sealed_bytes(start, rows_view(rows)) is Ok,
        0 <= i < 1000,
    ensures
        rows.len() == 1000,
        rows[i] matches Some(bytes) && codec::read_record(bytes@) is Ok
            && codec::read_range_record(sealed_bytes(start, rows_view(rows))->Ok_0, i)
            == codec::read_record(bytes@),
{
    let views = rows_view(rows);
    let records = read_rows(start, views, views.len())->Ok_0;
    lemma_read_rows(start, views, views.len());
    assert forall|j: int| 0 <= j < records.len() implies codec::record_fits(
        #[trigger] records[j],
    ) by {
        assert(views[j] is Some);
        codec::law_encode_undoes_decode(views[j]->Some_0);
    }
    assert(views[i] is Some);
    codec::law_range_record_undoes_encode(records, i);
}

/// A range is not sealed without one of its rows, nor with a row that is no record: the first such
/// row tells why.
pub proof fn law_bad_rows_are_not_sealed(start: u32, rows: Seq<Option<Vec<u8>>>, first_bad: int)
    requires
        0 <= first_bad < rows.len(),
        forall|i: int|
            0 <= i < first_bad ==> (#[trigger] rows[i] matches Some(bytes) && codec::read_record(
                bytes@,
            ) is Ok),
        rows[first_bad] matches Some(bytes) ==> codec::read_record(bytes@) is Err,
    ensures
        sealed_bytes(start, rows_view(rows)) == Err::<Seq<u8>, IndexError>(
            match rows[first_bad] {
                None => IndexError::IncompleteRange { start },
                Some(bytes) => IndexError::Codec(codec::read_record(bytes@)->Err_0),
            },
        ),
{
    let views = rows_view(rows);
    lemma_good_rows(start, rows, first_bad as nat);
    assert(views[first_bad] is None <==> rows[first_bad] is None);
    lemma_read_rows_fails(start, views, (first_bad + 1) as nat, views.len());
}

proof fn lemma_good_rows(start: u32, rows: Seq<Option<Vec<u8>>>, count: nat)
    requires
        count <= rows.len(),
        forall|i: int|
            0 <= i < count ==> (#[trigger] rows[i] matches Some(bytes) && codec::read_record(
                bytes@,
            ) is Ok),
    ensures
        read_rows(start, rows_view(rows), count) is Ok,
    decreases count,
{
    if count > 0 {
        lemma_good_rows(start, rows, (count - 1) as nat);
        assert(rows[count - 1] is Some);
    }
}

/// A block is looked for in the sealed range that holds its height, at the height's place in it,
/// where the height is sealed, and under its own height where it is not.
pub proof fn law_blocks_lie_at_their_places(state: StateView, height: u32, bytes: Seq<u8>)
    ensures
        match place_of(state, height) {
            RecordPlace::Sealed { start, index } => (state.sealed_through matches Some(sealed)
                && height <= sealed) && start % 1000 == 0 && index < 1000 && start + index
                == height && read_place(place_of(state, height), bytes) == codec::read_range_record(
                bytes,
                index as int,
            ),
            RecordPlace::Mutable { height: own } => own == height && (
            state.sealed_through matches Some(sealed) ==> height > sealed) && read_place(
                place_of(state, height),
                bytes,
            ) == codec::read_record(bytes),
        },
{
}

/// A check begins only where the tables have as many rows as the state says: one for every thousand
/// sealed blocks, one for every block behind them up to the tip, and a hash for every block. An
/// index without a tip must have no row at all.
pub proof fn law_check_counts_the_rows(
    state: StateView,
    sealed_rows: nat,
    mutable_rows: nat,
    hash_rows: nat,
)
    requires
        state_fits(state),
    ensures
        ({
            let sealed: int = match state.sealed_through {
                None => 0,
                Some(height) => height + 1,
            };
            match check_start(state, sealed_rows, mutable_rows, hash_rows) {
                Ok(None) => state.durable_tip is None && sealed_rows == 0 && mutable_rows == 0
                    && hash_rows == 0,
                Ok(Some(check)) => {
                    &&& state.durable_tip matches Some(tip) && sealed_rows * 1000 == sealed
                        && sealed + mutable_rows == tip.height + 1 && hash_rows == tip.height + 1
                    &&& check.state == state
                    &&& check.next_height == 0
                    &&& check.previous_hash is None
                },
                Err(error) => match state.durable_tip {
                    None => (sealed_rows > 0 || mutable_rows > 0 || hash_rows > 0) && error
                        == IndexError::Metadata,
                    Some(tip) => (sealed_rows * 1000 != sealed || sealed + mutable_rows
                        != tip.height + 1 || hash_rows != tip.height + 1) && error
                        == IndexError::Continuity { height: 0 },
                },
            }
        }),
{
}

/// A row of the sealed ranges passes a check exactly where it lies at the next height, its first and
/// last record are read, and the first is on top of the last block so far; the check then goes on a
/// thousand heights further, behind the last record.
pub proof fn law_ranges_are_checked_at_both_ends(check: CheckView, start: u32, bytes: Seq<u8>)
    ensures
        match check_range(check, start, bytes) {
            Ok((first, last)) => {
                &&& start == check.next_height
                &&& codec::read_range_record(bytes, 0) == Ok::<RecordView, CodecError>(first)
                &&& codec::read_range_record(bytes, 999) == Ok::<RecordView, CodecError>(last)
                &&& check.previous_hash matches Some(hash) ==> first.previous_hash == hash
                &&& check_past(check, 1000, last.hash).next_height == check.next_height + 1000
                &&& check_past(check, 1000, last.hash).previous_hash == Some(last.hash)
                &&& check_past(check, 1000, last.hash).state == check.state
            },
            Err(IndexError::Codec(error)) => start == check.next_height && (
            codec::read_range_record(bytes, 0) == Err::<RecordView, CodecError>(error)
                || codec::read_range_record(bytes, 999) == Err::<RecordView, CodecError>(error)),
            Err(IndexError::Continuity { height }) => (start != check.next_height && height
                == check.next_height % 0x1_0000_0000) || (start == check.next_height && height
                == start && (check.previous_hash matches Some(hash) && codec::read_range_record(
                bytes,
                0,
            )->Ok_0.previous_hash != hash)),
            Err(_) => false,
        },
{
}

/// A mutable row passes a check exactly where it lies at the next height, holds the record of that
/// height, and the record is on top of the last block so far; the check then goes on one height
/// further, behind the record.
pub proof fn law_rows_are_checked_one_by_one(check: CheckView, height: u32, bytes: Seq<u8>)
    ensures
        match check_row(check, height, bytes) {
            Ok(record) => {
                &&& height == check.next_height
                &&& codec::read_record(bytes) == Ok::<RecordView, CodecError>(record)
                &&& record.height == height
                &&& check.previous_hash matches Some(hash) ==> record.previous_hash == hash
                &&& check_past(check, 1, record.hash).next_height == check.next_height + 1
                &&& check_past(check, 1, record.hash).previous_hash == Some(record.hash)
            },
            Err(IndexError::Codec(error)) => height == check.next_height && codec::read_record(
                bytes,
            ) == Err::<RecordView, CodecError>(error),
            Err(IndexError::Continuity { height: at }) => (height != check.next_height && at
                == check.next_height % 0x1_0000_0000) || (height == check.next_height && at
                == height && (codec::read_record(bytes)->Ok_0.height != height || (
            check.previous_hash matches Some(hash) && codec::read_record(
                bytes,
            )->Ok_0.previous_hash != hash))),
            Err(_) => false,
        },
{
}

/// A check ends well exactly where it has come right behind the tip, the last block has the tip's
/// hash, and the record that is stored for the tip has the tree sizes of the state; and the hash
/// table must lead from a block's hash to its height.
pub proof fn law_check_ends_at_the_tip(
    check: CheckView,
    stored: Option<Seq<u8>>,
    height: u32,
    found: Option<u32>,
)
    requires
        check.state.durable_tip is Some,
    ensures
        ({
            let tip = check.state.durable_tip->Some_0;
            let place = place_of(check.state, tip.height);
            &&& check_tip(check, stored) is Ok <==> (stored matches Some(bytes) && (read_place(
                place,
                bytes,
            ) matches Ok(record) && record.end_tree_sizes == check.state.tree_sizes)
                && check.next_height == tip.height + 1 && check.previous_hash == Some(tip.hash@))
            &&& check_tip(check, stored) matches Err(error) ==> error == (
            if stored matches Some(bytes) && read_place(place, bytes) is Err {
                IndexError::Codec(read_place(place, stored->Some_0)->Err_0)
            } else {
                IndexError::Continuity { height: tip.height }
            })
            &&& check_hash(height, found) == if found == Some(height) {
                Ok::<(), IndexError>(())
            } else {
                Err(IndexError::HashIndex { height })
            }
            &&& check_ranges_end(check) is Ok <==> check.next_height == match check.state.sealed_through {
                None => 0int,
                Some(sealed) => sealed + 1,
            }
        }),
{
}

/// A batch has some blocks, and each is one height above the block before it and has its hash as
/// parent.
pub proof fn law_batches_are_chains(batch: BatchView, i: int)
    requires
        batch_fits(batch),
    ensures
        batch.records.len() > 0,
        0 < i < batch.records.len() ==> batch.records[i].height == batch.records[i - 1].height + 1
            && batch.records[i].previous_hash == batch.records[i - 1].hash,
{
    if 0 < i < batch.records.len() {
        assert(codec::linked(batch.records[i - 1], batch.records[i]));
    }
}

/// What the index lacks, or no longer has, is told with its height or generation.
pub proof fn law_missing_data_is_told(height: u32, generation: u64)
    ensures
        (IndexError::Coverage { height }).words() == "compact coverage does not reach height "@
            + text::decimal(height as nat),
        (IndexError::Generation { generation }).words() == "index generation "@ + text::decimal(
            generation as nat,
        ) + " is gone"@,
{
}

} // verus!
