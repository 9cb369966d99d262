//! Decisions of the pipeline that reads a chain database: what is indexed, and who streams what.
use vstd::prelude::*;
use vstd::string::StringExecFns;

use crate::bytes;
use crate::index;
use crate::index::{BlockId, IndexError, IndexState};
use crate::indexer::stream;
use crate::indexer::stream::BlockStream;
use crate::ingest::IngestError;
use crate::parser;
use crate::parser::CompactParseError;
use crate::pipeline;
use crate::pipeline::SourceRequest;
use crate::text;

verus! {

pub const MIB: usize = 1_048_576;

/// A source is asked for no more blocks than this at a time.
pub const MAX_SOURCE_BLOCKS: u32 = 4096;

/// A source is asked for no more bytes than this at a time.
pub const MAX_SOURCE_BYTES: usize = 67_108_864;

/// A block as the database holds it: its bytes, and the identifiers of its transactions.
#[derive(Clone, Debug, PartialEq, Eq)]
pub struct RawIndexBlock {
    pub height: u32,
    pub hash: [u8; 32],
    pub bytes: Vec<u8>,
    pub txids: Vec<[u8; 32]>,
}

/// A [`RawIndexBlock`] with its bytes as sequences.
#[verifier::ext_equal]
pub struct RawBlockView {
    pub height: u32,
    pub hash: Seq<u8>,
    pub bytes: Seq<u8>,
    pub txids: Seq<Seq<u8>>,
}

impl View for RawIndexBlock {
    type V = RawBlockView;

    open spec fn view(&self) -> RawBlockView {
        RawBlockView {
            height: self.height,
            hash: self.hash@,
            bytes: self.bytes@,
            txids: parser::hashes_view(self.txids@),
        }
    }
}

pub open spec fn blocks_view(blocks: Seq<RawIndexBlock>) -> Seq<RawBlockView> {
    Seq::new(blocks.len(), |i: int| blocks[i]@)
}

/// Blocks read from the database, the height below which it has pruned bodies, and its tip.
#[derive(Clone, Debug, PartialEq, Eq)]
pub struct SourceRange {
    pub blocks: Vec<RawIndexBlock>,
    pub retained_body_floor: u32,
    pub source_tip: Option<BlockId>,
}

/// Where a transaction lies in the chain.
#[derive(Clone, Copy, Debug, PartialEq, Eq)]
pub struct TransactionLocation {
    pub height: u32,
    pub index: u16,
}

/// What fetching took, in nanoseconds, and what it fetched.
#[derive(Clone, Copy, Debug, PartialEq, Eq)]
pub struct FetchStats {
    pub read: u128,
    pub header_read: u128,
    pub transaction_read: u128,
    pub txid_read: u128,
    pub assemble: u128,
    pub send_wait: u128,
    pub ranges: u64,
    pub blocks: u64,
    pub bytes: u64,
}

impl Default for FetchStats {
    fn default() -> (stats: Self)
        ensures
            stats == (FetchStats {
                read: 0,
                header_read: 0,
                transaction_read: 0,
                txid_read: 0,
                assemble: 0,
                send_wait: 0,
                ranges: 0,
                blocks: 0,
                bytes: 0,
            }),
    {
        FetchStats {
            read: 0,
            header_read: 0,
            transaction_read: 0,
            txid_read: 0,
            assemble: 0,
            send_wait: 0,
            ranges: 0,
            blocks: 0,
            bytes: 0,
        }
    }
}

impl FetchStats {
    /// The sums of both stats can be kept.
    pub open spec fn can_add(self, other: Self) -> bool {
        &&& self.read + other.read <= u128::MAX
        &&& self.header_read + other.header_read <= u128::MAX
        &&& self.transaction_read + other.transaction_read <= u128::MAX
        &&& self.txid_read + other.txid_read <= u128::MAX
        &&& self.assemble + other.assemble <= u128::MAX
        &&& self.send_wait + other.send_wait <= u128::MAX
        &&& self.ranges + other.ranges <= u64::MAX
        &&& self.blocks + other.blocks <= u64::MAX
        &&& self.bytes + other.bytes <= u64::MAX
    }

    /// What reading took, over all its stages.
    pub open spec fn read_time(self) -> int {
        self.header_read + self.transaction_read + self.txid_read + self.assemble
    }

    /// Notes the blocks that a stream has given out, which count as one range.
    pub fn note_stream(&mut self, stream: &BlockStream)
        requires
            stream.wf(),
            old(self).read_time() <= u128::MAX,
            stream::bytes_sum(stream@.given) <= u64::MAX,
        ensures
            *final(self) == (if stream@.given.len() == 0 {
                *old(self)
            } else {
                FetchStats {
                    read: old(self).read_time() as u128,
                    ranges: 1,
                    blocks: stream@.given.len() as u64,
                    bytes: stream::bytes_sum(stream@.given) as u64,
                    ..*old(self)
                }
            }),
    {
        let blocks: u64 = stream.blocks();
        if blocks == 0 {
            return;
        }
        self.read = self.header_read + self.transaction_read + self.txid_read + self.assemble;
        self.ranges = 1;
        self.blocks = blocks;
        self.bytes = stream.bytes() as u64;
    }

    /// Adds another fetcher's stats.
    pub fn add(&mut self, other: Self)
        requires
            old(self).can_add(other),
        ensures
            final(self).read == old(self).read + other.read,
            final(self).header_read == old(self).header_read + other.header_read,
            final(self).transaction_read == old(self).transaction_read + other.transaction_read,
            final(self).txid_read == old(self).txid_read + other.txid_read,
            final(self).assemble == old(self).assemble + other.assemble,
            final(self).send_wait == old(self).send_wait + other.send_wait,
            final(self).ranges == old(self).ranges + other.ranges,
            final(self).blocks == old(self).blocks + other.blocks,
            final(self).bytes == old(self).bytes + other.bytes,
    {
        self.read = self.read + other.read;
        self.header_read = self.header_read + other.header_read;
        self.transaction_read = self.transaction_read + other.transaction_read;
        self.txid_read = self.txid_read + other.txid_read;
        self.assemble = self.assemble + other.assemble;
        self.send_wait = self.send_wait + other.send_wait;
        self.ranges = self.ranges + other.ranges;
        self.blocks = self.blocks + other.blocks;
        self.bytes = self.bytes + other.bytes;
    }
}

/// Limits of the pipeline.
#[derive(Clone, Copy, Debug, PartialEq, Eq)]
pub struct PipelineConfig {
    pub fetch_workers: usize,
    pub parser_workers: usize,
    pub source_segment_blocks: u32,
    pub max_source_bytes: usize,
    pub max_pending_bytes: usize,
    pub max_batch_bytes: usize,
}

impl PipelineConfig {
    /// The limits on a machine that runs `workers` threads at a time.
    pub fn for_workers(workers: usize) -> (config: Self)
        ensures
            config == (PipelineConfig {
                fetch_workers: if workers < 8 {
                    workers
                } else {
                    8
                },
                parser_workers: workers,
                source_segment_blocks: 256,
                max_source_bytes: (64 * MIB) as usize,
                max_pending_bytes: (256 * MIB) as usize,
                max_batch_bytes: (16 * MIB) as usize,
            }),
    {
        PipelineConfig {
            fetch_workers: if workers < 8 {
                workers
            } else {
                8
            },
            parser_workers: workers,
            source_segment_blocks: 256,
            max_source_bytes: 64 * MIB,
            max_pending_bytes: 256 * MIB,
            max_batch_bytes: 16 * MIB,
        }
    }
}

/// Why the pipeline stops.
#[derive(Clone, Copy, Debug, PartialEq, Eq)]
pub enum PipelineError {
    Parse(CompactParseError),
    Ingest(IngestError),
    Index(IndexError),
    Config,
    NoSourceTip,
    MissingBody { height: u32 },
    BlockExceedsByteLimit { height: u32, required: usize, limit: usize },
    SourceSize { height: u32 },
    SourceChanged,
    DurableTipMismatch { height: u32 },
    SourceGap { expected: u32, actual: Option<u32> },
}

impl PipelineError {
    /// The error in words.
    pub open spec fn words(self) -> Seq<char> {
        match self {
            PipelineError::Parse(error) => error.words(),
            PipelineError::Ingest(error) => error.words(),
            PipelineError::Index(error) => error.words(),
            PipelineError::Config => "pipeline configuration has a zero or out-of-range limit"@,
            PipelineError::NoSourceTip => "Zakura has no finalized source tip"@,
            PipelineError::MissingBody { height } =>
                "Zakura has pruned the required block body at height "@ + text::decimal(
                height as nat,
            ),
            PipelineError::BlockExceedsByteLimit { height, required, limit } =>
                "Zakura block at height "@ + text::decimal(height as nat) + " needs "@
                + text::decimal(required as nat) + " source bytes, limit is "@ + text::decimal(
                limit as nat,
            ),
            PipelineError::SourceSize { height } => "Zakura source size overflowed at height "@
                + text::decimal(height as nat),
            PipelineError::SourceChanged => "Zakura source changed during historical ingestion"@,
            PipelineError::DurableTipMismatch { height } => "LMDB durable tip at height "@
                + text::decimal(height as nat) + " does not match Zakura"@,
            PipelineError::SourceGap { expected, actual } =>
                "Zakura returned a gap or wrong height: expected "@ + text::decimal(
                expected as nat,
            ) + ", got "@ + text::optional(actual),
        }
    }

    /// The error in words.
    pub fn message(&self) -> (message: String)
        ensures
            message@ == self.words(),
    {
        match self {
            PipelineError::Parse(error) => error.message(),
            PipelineError::Ingest(error) => error.message(),
            PipelineError::Index(error) => error.message(),
            PipelineError::Config => String::from_str(
                "pipeline configuration has a zero or out-of-range limit",
            ),
            PipelineError::NoSourceTip => String::from_str("Zakura has no finalized source tip"),
            PipelineError::MissingBody { height } => String::from_str(
                "Zakura has pruned the required block body at height ",
            ).concat(text::number_text(*height as u64).as_str()),
            PipelineError::BlockExceedsByteLimit { height, required, limit } =>
                text::text_with_number("Zakura block at height ", *height as u64, " needs ").concat(
                text::number_text(*required as u64).as_str(),
            ).concat(" source bytes, limit is ").concat(text::number_text(*limit as u64).as_str()),
            PipelineError::SourceSize { height } => String::from_str(
                "Zakura source size overflowed at height ",
            ).concat(text::number_text(*height as u64).as_str()),
            PipelineError::SourceChanged => String::from_str(
                "Zakura source changed during historical ingestion",
            ),
            PipelineError::DurableTipMismatch { height } => text::text_with_number(
                "LMDB durable tip at height ",
                *height as u64,
                " does not match Zakura",
            ),
            PipelineError::SourceGap { expected, actual } => text::text_with_number(
                "Zakura returned a gap or wrong height: expected ",
                *expected as u64,
                ", got ",
            ).concat(text::optional_text(*actual).as_str()),
        }
    }
}

/// Limits that a pipeline can work with.
pub open spec fn config_fits(config: PipelineConfig) -> bool {
    &&& config.fetch_workers > 0
    &&& config.parser_workers > 0
    &&& 1 <= config.source_segment_blocks <= MAX_SOURCE_BLOCKS
    &&& config.max_source_bytes >= config.fetch_workers
    &&& 0 < config.max_batch_bytes <= config.max_pending_bytes
}

/// Refuses limits that a pipeline cannot work with.
pub fn validate_config(config: PipelineConfig) -> (valid: Result<(), PipelineError>)
    ensures
        valid == (if config_fits(config) {
            Ok::<(), PipelineError>(())
        } else {
            Err(PipelineError::Config)
        }),
{
    if config.fetch_workers == 0 || config.parser_workers == 0 || config.source_segment_blocks < 1
        || config.source_segment_blocks > MAX_SOURCE_BLOCKS || config.max_source_bytes
        < config.fetch_workers || config.max_pending_bytes == 0 || config.max_batch_bytes == 0
        || config.max_batch_bytes > config.max_pending_bytes {
        return Err(PipelineError::Config);
    }
    Ok(())
}

// ---------------------------------------------------------------------------
// Starting
// ---------------------------------------------------------------------------

/// The first height that the index lacks.
pub open spec fn start_height(state: index::StateView) -> Result<u32, PipelineError> {
    match state.durable_tip {
        None => Ok(0),
        Some(tip) => if tip.height == u32::MAX {
            Err(PipelineError::Ingest(IngestError::Overflow))
        } else {
            Ok((tip.height + 1) as u32)
        },
    }
}

/// The first height that the index lacks.
pub fn first_missing(state: &IndexState) -> (start: Result<u32, PipelineError>)
    ensures
        start == start_height(state@),
{
    match state.durable_tip() {
        None => Ok(0),
        Some(tip) => match tip.height.checked_add(1) {
            Some(height) => Ok(height),
            None => Err(PipelineError::Ingest(IngestError::Overflow)),
        },
    }
}

/// A fetcher's share of the bytes.
pub open spec fn share_of_bytes(config: PipelineConfig) -> int {
    let share = config.max_source_bytes as int / config.fetch_workers as int;
    if share < 1 {
        1
    } else if share > MAX_SOURCE_BYTES {
        MAX_SOURCE_BYTES as int
    } else {
        share
    }
}

/// What the database is asked first: the block at the index's tip, or only for its own tip.
pub fn probe_request(state: &IndexState, config: PipelineConfig) -> (probe: Result<
    SourceRequest,
    PipelineError,
>)
    requires
        config.fetch_workers > 0,
    ensures
        match (start_height(state@), probe) {
            (Err(error), Err(actual)) => actual == error,
            (Ok(start), Ok(probe)) => probe.max_bytes == share_of_bytes(config) && (
            match state@.durable_tip {
                None => probe.start == start && probe.count == 0,
                Some(tip) => probe.start == tip.height && probe.count == 1,
            }),
            _ => false,
        },
{
    let start: u32 = first_missing(state)?;
    let share: usize = config.max_source_bytes / config.fetch_workers;
    let max_bytes: usize = if share < 1 {
        1
    } else if share > MAX_SOURCE_BYTES {
        MAX_SOURCE_BYTES
    } else {
        share
    };
    Ok(
        match state.durable_tip() {
            None => SourceRequest { start, count: 0, max_bytes },
            Some(tip) => SourceRequest { start: tip.height, count: 1, max_bytes },
        },
    )
}

/// What is to be indexed: the blocks from `start` up to the source's tip.
#[derive(Clone, Copy, Debug, PartialEq, Eq)]
pub struct SyncPlan {
    pub start: u32,
    pub source_tip: BlockId,
}

/// The first block that was read is `tip`.
pub open spec fn begins_with(blocks: Seq<RawIndexBlock>, tip: BlockId) -> bool {
    blocks.len() > 0 && blocks[0].height == tip.height && blocks[0].hash@ == tip.hash@
}

/// What to do by the answer to a probe; nothing where the index has come as far as the source, or
/// further than its finalized tip.
pub open spec fn sync_plan(state: index::StateView, probe: SourceRange) -> Result<
    Option<SyncPlan>,
    PipelineError,
> {
    match (start_height(state), probe.source_tip) {
        (Err(error), _) => Err(error),
        (Ok(start), None) => Err(PipelineError::NoSourceTip),
        (Ok(start), Some(source_tip)) => {
            let tip = state.durable_tip->Some_0;
            if state.durable_tip is Some && tip.height > source_tip.height {
                Ok(None)
            } else if state.durable_tip is Some && !begins_with(probe.blocks@, tip) {
                Err(PipelineError::DurableTipMismatch { height: tip.height })
            } else if start < probe.retained_body_floor {
                Err(PipelineError::MissingBody { height: start })
            } else if start > source_tip.height {
                Ok(None)
            } else {
                Ok(Some(SyncPlan { start, source_tip }))
            }
        },
    }
}

/// Decides what to index by the answer to a probe.
pub fn plan_sync(state: &IndexState, probe: &SourceRange) -> (plan: Result<
    Option<SyncPlan>,
    PipelineError,
>)
    ensures
        plan == sync_plan(state@, *probe),
{
    let start: u32 = first_missing(state)?;
    let source_tip: BlockId = match probe.source_tip {
        None => return Err(PipelineError::NoSourceTip),
        Some(source_tip) => source_tip,
    };
    if let Some(tip) = state.durable_tip() {
        if tip.height > source_tip.height {
            return Ok(None);
        }
        if probe.blocks.len() == 0 || probe.blocks[0].height != tip.height || !bytes::same_bytes(
            probe.blocks[0].hash.as_slice(),
            tip.hash.as_slice(),
        ) {
            return Err(PipelineError::DurableTipMismatch { height: tip.height });
        }
    }
    if start < probe.retained_body_floor {
        return Err(PipelineError::MissingBody { height: start });
    }
    if start > source_tip.height {
        return Ok(None);
    }
    Ok(Some(SyncPlan { start, source_tip }))
}

/// Heights from `start` to `end` that one fetcher streams, and the hash at `end` if it is known.
#[derive(Clone, Copy, Debug)]
pub struct StreamSegment {
    pub start: u32,
    pub end: StreamEnd,
}

/// Where a stream of blocks ends: its last height, and the hash there if it is known.
#[derive(Clone, Copy, Debug)]
pub struct StreamEnd {
    pub height: u32,
    pub hash: Option<[u8; 32]>,
}

/// The segment of `blocks` blocks that begins at `start`, if the source's tip lies at or behind it;
/// the hash at its end is known where that is the tip.
pub fn stream_segment(start: u64, blocks: u32, source_tip: BlockId) -> (segment: Option<
    StreamSegment,
>)
    requires
        blocks > 0,
    ensures
        match segment {
            None => start > source_tip.height,
            Some(segment) => {
                &&& start <= source_tip.height
                &&& segment.start == start
                &&& segment.end.height == pipeline::segment_end(
                    start as int,
                    blocks,
                    source_tip.height,
                )
                &&& segment.end.hash == (if segment.end.height == source_tip.height {
                    Some(source_tip.hash)
                } else {
                    None
                })
            },
        },
{
    match pipeline::segment_at(start, blocks, source_tip.height) {
        None => None,
        Some(segment) => Some(
            StreamSegment {
                start: segment.cursor,
                end: StreamEnd {
                    height: segment.end,
                    hash: if segment.end == source_tip.height {
                        Some(source_tip.hash)
                    } else {
                        None
                    },
                },
            },
        ),
    }
}

// ---------------------------------------------------------------------------
// Laws
// ---------------------------------------------------------------------------

/// A pipeline works with any limits that are not zero, with segments of up to 4096 blocks, with at
/// least a byte for each fetcher, and with batches no larger than what may wait; with no others.
pub proof fn law_limits_are_sane(config: PipelineConfig)
    ensures
        config_fits(config) <==> config.fetch_workers != 0 && config.parser_workers != 0
            && config.source_segment_blocks != 0 && config.source_segment_blocks <= 4096
            && config.fetch_workers <= config.max_source_bytes && config.max_batch_bytes != 0
            && config.max_pending_bytes != 0 && config.max_batch_bytes <= config.max_pending_bytes,
{
}

/// Fetchers share the bytes evenly: a share is the largest number that all of them can have at
/// once, but at least a byte and at most 64 MiB.
pub proof fn law_fetchers_share_the_bytes(config: PipelineConfig)
    requires
        config.fetch_workers > 0,
    ensures
        ({
            let share = share_of_bytes(config);
            &&& 1 <= share <= 67_108_864
            &&& share == 1 || share * config.fetch_workers <= config.max_source_bytes
            &&& share == 67_108_864 || (share + 1) * config.fetch_workers > config.max_source_bytes
        }),
{
    let bytes = config.max_source_bytes as int;
    let workers = config.fetch_workers as int;
    let even = bytes / workers;
    assert(even * workers <= bytes < (even + 1) * workers) by (nonlinear_arith)
        requires
            workers > 0,
            even == bytes / workers,
    ;
    let share = share_of_bytes(config);
    assert(share <= even ==> share * workers <= even * workers) by (nonlinear_arith)
        requires
            workers > 0,
    ;
    assert(share >= even ==> (share + 1) * workers >= (even + 1) * workers) by (nonlinear_arith)
        requires
            workers > 0,
    ;
}

/// The first height that an index lacks is the one behind its tip, or zero; behind the last height
/// that 32 bits hold there is none.
pub proof fn law_first_missing_is_behind_the_tip(state: index::StateView)
    ensures
        match start_height(state) {
            Ok(start) => match state.durable_tip {
                None => start == 0,
                Some(tip) => start == tip.height + 1,
            },
            Err(error) => error == PipelineError::Ingest(IngestError::Overflow) && (
            state.durable_tip matches Some(tip) && tip.height == 4_294_967_295),
        },
{
}

/// A plan begins at the first height that the index lacks, and there is one where the source has
/// come that far. An index that is ahead of the source waits for it; otherwise the index's tip must
/// be the block that the source has at its height, and the source must still have the next body:
/// the answer says which of these fails, the first in this order.
pub proof fn law_plan_holds_what_is_missing(state: index::StateView, probe: SourceRange)
    ensures
        ({
            let next: int = match state.durable_tip {
                None => 0,
                Some(tip) => tip.height + 1,
            };
            let ahead = probe.source_tip matches Some(tip) && next > tip.height + 1;
            let agrees = state.durable_tip matches Some(tip) ==> probe.blocks@.len() > 0
                && probe.blocks@[0].height == tip.height && probe.blocks@[0].hash@ == tip.hash@;
            match sync_plan(state, probe) {
                Ok(Some(plan)) => {
                    &&& probe.source_tip == Some(plan.source_tip)
                    &&& agrees
                    &&& plan.start == next
                    &&& probe.retained_body_floor <= next <= plan.source_tip.height
                },
                Ok(None) => {
                    &&& next <= 4_294_967_295
                    &&& probe.source_tip matches Some(tip) && next > tip.height
                    &&& ahead || agrees && probe.retained_body_floor <= next
                },
                Err(PipelineError::Ingest(IngestError::Overflow)) => next > 4_294_967_295,
                Err(PipelineError::NoSourceTip) => probe.source_tip is None && next
                    <= 4_294_967_295,
                Err(PipelineError::DurableTipMismatch { height }) => !agrees && !ahead && height
                    == next - 1 && next <= 4_294_967_295 && probe.source_tip is Some,
                Err(PipelineError::MissingBody { height }) => height == next && next
                    < probe.retained_body_floor && agrees && !ahead && probe.source_tip is Some,
                Err(_) => false,
            }
        }),
{
}

/// Reading takes what its four stages take, and stats can be added wherever each sum fits its
/// field.
pub proof fn law_stats_add_up(stats: FetchStats, other: FetchStats)
    ensures
        stats.read_time() == stats.header_read + stats.transaction_read + stats.txid_read
            + stats.assemble,
        stats.can_add(other) <==> {
            &&& stats.read + other.read < 0x1_0000_0000_0000_0000_0000_0000_0000_0000
            &&& stats.header_read + other.header_read
                < 0x1_0000_0000_0000_0000_0000_0000_0000_0000
            &&& stats.transaction_read + other.transaction_read
                < 0x1_0000_0000_0000_0000_0000_0000_0000_0000
            &&& stats.txid_read + other.txid_read < 0x1_0000_0000_0000_0000_0000_0000_0000_0000
            &&& stats.assemble + other.assemble < 0x1_0000_0000_0000_0000_0000_0000_0000_0000
            &&& stats.send_wait + other.send_wait < 0x1_0000_0000_0000_0000_0000_0000_0000_0000
            &&& stats.ranges + other.ranges < 0x1_0000_0000_0000_0000
            &&& stats.blocks + other.blocks < 0x1_0000_0000_0000_0000
            &&& stats.bytes + other.bytes < 0x1_0000_0000_0000_0000
        },
{
}

/// A block is viewed as it is, field by field, its identifiers in their order.
pub proof fn law_blocks_are_viewed_as_they_are(blocks: Seq<RawIndexBlock>, i: int, k: int)
    requires
        0 <= i < blocks.len(),
        0 <= k < blocks[i].txids@.len(),
    ensures
        blocks_view(blocks).len() == blocks.len(),
        blocks_view(blocks)[i].height == blocks[i].height,
        blocks_view(blocks)[i].hash == blocks[i].hash@,
        blocks_view(blocks)[i].bytes == blocks[i].bytes@,
        blocks_view(blocks)[i].txids.len() == blocks[i].txids@.len(),
        blocks_view(blocks)[i].txids[k] == blocks[i].txids@[k]@,
{
}

} // verus!
