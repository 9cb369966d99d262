//! Decisions of the historical pipeline: what is asked of the source of blocks, what is accepted
//! from it, how the work is cut up, and when batches are built.
use vstd::prelude::*;
use vstd::string::StringExecFns;

use crate::bytes;
use crate::index;
use crate::index::{BlockId, IndexError, IndexState, WriteBatch, PERSIST_DEPTH};
use crate::ingest;
use crate::ingest::{IngestError, OrderedBuilder};
use crate::parser::{CompactParseError, PreparedCompactBlock, RawIndexBlock};
use crate::text;

verus! {

pub const MIB: usize = 1_048_576;

/// A source is asked for no more blocks than this at a time.
pub const MAX_SOURCE_BLOCKS: u32 = 4096;

/// A source is asked for no more bytes than this at a time.
pub const MAX_SOURCE_BYTES: usize = 67_108_864;

/// Limits of the pipeline.
#[derive(Clone, Copy, Debug, PartialEq, Eq)]
pub struct PipelineConfig {
    pub fetch_workers: usize,
    pub parser_workers: usize,
    pub source_segment_blocks: u32,
    pub max_source_bytes: usize,
    pub max_pending_bytes: usize,
    pub max_batch_bytes: usize,
}

impl PipelineConfig {
    /// The limits on a machine that runs `workers` threads at a time.
    pub fn for_workers(workers: usize) -> (config: Self)
        ensures
            config == (PipelineConfig {
                fetch_workers: if workers < 4 {
                    workers
                } else {
                    4
                },
                parser_workers: workers,
                source_segment_blocks: 64,
                max_source_bytes: (64 * MIB) as usize,
                max_pending_bytes: (64 * MIB) as usize,
                max_batch_bytes: (16 * MIB) as usize,
            }),
    {
        PipelineConfig {
            fetch_workers: if workers < 4 {
                workers
            } else {
                4
            },
            parser_workers: workers,
            source_segment_blocks: 64,
            max_source_bytes: 64 * MIB,
            max_pending_bytes: 64 * MIB,
            max_batch_bytes: 16 * MIB,
        }
    }
}

/// Why the pipeline stops.
#[derive(Clone, Copy, Debug, PartialEq, Eq)]
pub enum PipelineError {
    Parse(CompactParseError),
    Ingest(IngestError),
    Index(IndexError),
    Config,
    NoSourceTip,
    MissingBody { height: u32 },
    SourceChanged,
    DurableTipMismatch { height: u32 },
    SourceGap { expected: u32, actual: Option<u32> },
}

impl PipelineError {
    /// The error in words.
    pub open spec fn words(self) -> Seq<char> {
        match self {
            PipelineError::Parse(error) => error.words(),
            PipelineError::Ingest(error) => error.words(),
            PipelineError::Index(error) => error.words(),
            PipelineError::Config => "pipeline configuration has a zero or out-of-range limit"@,
            PipelineError::NoSourceTip => "Zakura has no finalized source tip"@,
            PipelineError::MissingBody { height } =>
                "Zakura has pruned the required block body at height "@ + text::decimal(
                height as nat,
            ),
            PipelineError::SourceChanged => "Zakura source changed during historical ingestion"@,
            PipelineError::DurableTipMismatch { height } => "LMDB durable tip at height "@
                + text::decimal(height as nat) + " does not match Zakura"@,
            PipelineError::SourceGap { expected, actual } =>
                "Zakura returned a gap or wrong height: expected "@ + text::decimal(
                expected as nat,
            ) + ", got "@ + text::optional(actual),
        }
    }

    /// The error in words.
    pub fn message(&self) -> (message: String)
        ensures
            message@ == self.words(),
    {
        match self {
            PipelineError::Parse(error) => error.message(),
            PipelineError::Ingest(error) => error.message(),
            PipelineError::Index(error) => error.message(),
            PipelineError::Config => String::from_str(
                "pipeline configuration has a zero or out-of-range limit",
            ),
            PipelineError::NoSourceTip => String::from_str("Zakura has no finalized source tip"),
            PipelineError::MissingBody { height } => String::from_str(
                "Zakura has pruned the required block body at height ",
            ).concat(text::number_text(*height as u64).as_str()),
            PipelineError::SourceChanged => String::from_str(
                "Zakura source changed during historical ingestion",
            ),
            PipelineError::DurableTipMismatch { height } => text::text_with_number(
                "LMDB durable tip at height ",
                *height as u64,
                " does not match Zakura",
            ),
            PipelineError::SourceGap { expected, actual } => text::text_with_number(
                "Zakura returned a gap or wrong height: expected ",
                *expected as u64,
                ", got ",
            ).concat(text::optional_text(*actual).as_str()),
        }
    }
}

/// Limits that a pipeline can work with.
pub open spec fn config_fits(config: PipelineConfig) -> bool {
    &&& config.fetch_workers > 0
    &&& config.parser_workers > 0
    &&& 1 <= config.source_segment_blocks <= MAX_SOURCE_BLOCKS
    &&& config.max_source_bytes >= config.fetch_workers
    &&& 0 < config.max_batch_bytes <= config.max_pending_bytes
}

/// Refuses limits that a pipeline cannot work with.
pub fn validate_config(config: PipelineConfig) -> (valid: Result<(), PipelineError>)
    ensures
        valid == (if config_fits(config) {
            Ok::<(), PipelineError>(())
        } else {
            Err(PipelineError::Config)
        }),
{
    if config.fetch_workers == 0 || config.parser_workers == 0 || config.source_segment_blocks < 1
        || config.source_segment_blocks > MAX_SOURCE_BLOCKS || config.max_source_bytes
        < config.fetch_workers || config.max_pending_bytes == 0 || config.max_batch_bytes == 0
        || config.max_batch_bytes > config.max_pending_bytes {
        return Err(PipelineError::Config);
    }
    Ok(())
}

/// What a source answers: blocks from the height it was asked for, the height below which it has
/// pruned bodies, and its tip.
#[derive(Clone, Debug, PartialEq, Eq)]
pub struct SourceRange {
    pub blocks: Vec<RawIndexBlock>,
    pub retained_body_floor: u32,
    pub source_tip: Option<BlockId>,
}

// ---------------------------------------------------------------------------
// Starting
// ---------------------------------------------------------------------------

/// The first height that the index lacks.
pub open spec fn start_height(state: index::StateView) -> Result<u32, PipelineError> {
    match state.durable_tip {
        None => Ok(0),
        Some(tip) => if tip.height == u32::MAX {
            Err(PipelineError::Ingest(IngestError::Overflow))
        } else {
            Ok((tip.height + 1) as u32)
        },
    }
}

/// What a source is asked for: `count` blocks from `start`, within `max_bytes`.
#[derive(Clone, Copy, Debug, PartialEq, Eq)]
pub struct SourceRequest {
    pub start: u32,
    pub count: u32,
    pub max_bytes: usize,
}

/// A fetcher's share of the bytes.
pub open spec fn share_of_bytes(config: PipelineConfig) -> int {
    let share = config.max_source_bytes as int / config.fetch_workers as int;
    if share < 1 {
        1
    } else if share > MAX_SOURCE_BYTES {
        MAX_SOURCE_BYTES as int
    } else {
        share
    }
}

/// A fetcher's share of the bytes.
pub fn request_bytes(config: PipelineConfig) -> (bytes: usize)
    requires
        config.fetch_workers > 0,
    ensures
        bytes == share_of_bytes(config),
{
    let share: usize = config.max_source_bytes / config.fetch_workers;
    if share < 1 {
        1
    } else if share > MAX_SOURCE_BYTES {
        MAX_SOURCE_BYTES
    } else {
        share
    }
}

/// The first height that the index lacks.
pub fn first_missing(state: &IndexState) -> (start: Result<u32, PipelineError>)
    ensures
        start == start_height(state@),
{
    match state.durable_tip() {
        None => Ok(0),
        Some(tip) => match tip.height.checked_add(1) {
            Some(height) => Ok(height),
            None => Err(PipelineError::Ingest(IngestError::Overflow)),
        },
    }
}

/// What the source is asked first: the block at the index's tip, or only for the source's own tip.
pub fn probe_request(state: &IndexState, config: PipelineConfig) -> (probe: Result<
    SourceRequest,
    PipelineError,
>)
    requires
        config.fetch_workers > 0,
    ensures
        match (start_height(state@), probe) {
            (Err(error), Err(actual)) => actual == error,
            (Ok(start), Ok(probe)) => probe.max_bytes == share_of_bytes(config) && (
            match state@.durable_tip {
                None => probe.start == start && probe.count == 0,
                Some(tip) => probe.start == tip.height && probe.count == 1,
            }),
            _ => false,
        },
{
    let start: u32 = first_missing(state)?;
    let (height, count): (u32, u32) = match state.durable_tip() {
        None => (start, 0),
        Some(tip) => (tip.height, 1),
    };
    Ok(SourceRequest { start: height, count, max_bytes: request_bytes(config) })
}

/// What is to be indexed: the blocks from `start` to `target`, of the chain that ends at
/// `source_tip`.
#[derive(Clone, Copy, Debug, PartialEq, Eq)]
pub struct SyncPlan {
    pub start: u32,
    pub target: u32,
    pub source_tip: BlockId,
}

/// The first block of an answer is `tip`.
pub open spec fn begins_with(blocks: Seq<RawIndexBlock>, tip: BlockId) -> bool {
    blocks.len() > 0 && blocks[0].height == tip.height && blocks[0].hash@ == tip.hash@
}

/// What the source still owes the index once it has answered a probe with its tip: that the index's
/// tip is on its chain, and that it has the next body.
pub open spec fn probe_refusal(
    state: index::StateView,
    start: u32,
    probe: SourceRange,
) -> Option<PipelineError> {
    if state.durable_tip is Some && !begins_with(probe.blocks@, state.durable_tip->Some_0) {
        Some(PipelineError::DurableTipMismatch { height: state.durable_tip->Some_0.height })
    } else if start < probe.retained_body_floor {
        Some(PipelineError::MissingBody { height: start })
    } else {
        None
    }
}

/// What to do by the answer to a probe; nothing where no block lies deep enough.
pub open spec fn sync_plan(state: index::StateView, probe: SourceRange) -> Result<
    Option<SyncPlan>,
    PipelineError,
> {
    match (start_height(state), probe.source_tip) {
        (Err(error), _) => Err(error),
        (Ok(start), None) => Err(PipelineError::NoSourceTip),
        (Ok(start), Some(source_tip)) => match probe_refusal(state, start, probe) {
            Some(error) => Err(error),
            None => if start + PERSIST_DEPTH > source_tip.height {
                Ok(None)
            } else {
                Ok(
                    Some(
                        SyncPlan {
                            start,
                            target: (source_tip.height - PERSIST_DEPTH) as u32,
                            source_tip,
                        },
                    ),
                )
            },
        },
    }
}

/// Checks the answer to a probe: the index's tip must be on the source's chain, and the next body
/// must not be pruned.
pub fn check_probe(state: &IndexState, start: u32, probe: &SourceRange) -> (checked: Result<
    (),
    PipelineError,
>)
    ensures
        checked == (match probe_refusal(state@, start, *probe) {
            Some(error) => Err::<(), PipelineError>(error),
            None => Ok(()),
        }),
{
    if let Some(tip) = state.durable_tip() {
        if probe.blocks.len() == 0 || probe.blocks[0].height != tip.height || !bytes::same_bytes(
            probe.blocks[0].hash.as_slice(),
            tip.hash.as_slice(),
        ) {
            return Err(PipelineError::DurableTipMismatch { height: tip.height });
        }
    }
    if start < probe.retained_body_floor {
        return Err(PipelineError::MissingBody { height: start });
    }
    Ok(())
}

/// Decides what to index by the answer to a probe.
pub fn plan_sync(state: &IndexState, probe: &SourceRange) -> (plan: Result<
    Option<SyncPlan>,
    PipelineError,
>)
    ensures
        plan == sync_plan(state@, *probe),
{
    let start: u32 = first_missing(state)?;
    let source_tip: BlockId = match probe.source_tip {
        None => return Err(PipelineError::NoSourceTip),
        Some(source_tip) => source_tip,
    };
    check_probe(state, start, probe)?;
    let target: u32 = match source_tip.height.checked_sub(PERSIST_DEPTH) {
        None => return Ok(None),
        Some(target) => target,
    };
    if start > target {
        return Ok(None);
    }
    Ok(Some(SyncPlan { start, target, source_tip }))
}

/// A plan goes on from the index's tip, and every block in it is deep enough to be indexed.
pub proof fn law_plan_follows_index(state: index::StateView, probe: SourceRange)
    requires
        sync_plan(state, probe) matches Ok(Some(plan)),
    ensures
        ({
            let plan = sync_plan(state, probe)->Ok_0->Some_0;
            &&& start_height(state) == Ok::<u32, PipelineError>(plan.start)
            &&& plan.start <= plan.target
            &&& plan.target + PERSIST_DEPTH == plan.source_tip.height
            &&& probe.source_tip == Some(plan.source_tip)
            &&& state.durable_tip matches Some(tip) ==> begins_with(probe.blocks@, tip)
                && plan.start == tip.height + 1
        }),
{
}

// ---------------------------------------------------------------------------
// Fetching
// ---------------------------------------------------------------------------

/// Heights from `cursor` to `end` that one fetcher asks for.
#[derive(Clone, Copy, Debug, PartialEq, Eq)]
pub struct Segment {
    pub cursor: u32,
    pub end: u32,
}

/// The last height of the segment of `blocks` blocks that begins at `start`.
pub open spec fn segment_end(start: int, blocks: u32, target: u32) -> int {
    if start + blocks - 1 < target {
        start + blocks - 1
    } else {
        target as int
    }
}

/// The segment that begins at `start`, if the target lies at or behind it.
pub fn segment_at(start: u64, blocks: u32, target: u32) -> (segment: Option<Segment>)
    requires
        blocks > 0,
    ensures
        match segment {
            None => start > target,
            Some(segment) => start <= target && segment.cursor == start && segment.end
                == segment_end(start as int, blocks, target),
        },
{
    if start > target as u64 {
        return None;
    }
    let last: u64 = start + (blocks as u64 - 1);
    let end: u64 = if last < target as u64 {
        last
    } else {
        target as u64
    };
    Some(Segment { cursor: start as u32, end: end as u32 })
}

/// Height `height` is in segment `number` of those of `blocks` blocks from `start` on.
pub open spec fn in_segment(start: u32, blocks: u32, target: u32, number: nat, height: u32) -> bool {
    let first = start + number * blocks;
    first <= target && first <= height <= segment_end(first, blocks, target)
}

/// Segments of equal length from `start` on hold every height up to the target, each exactly once.
pub proof fn law_segments_hold_each_height_once(
    start: u32,
    blocks: u32,
    target: u32,
    height: u32,
    number: nat,
)
    requires
        blocks > 0,
        start <= height <= target,
    ensures
        in_segment(start, blocks, target, number, height) <==> number == (height - start)
            / blocks as int,
{
    let offset = height - start;
    let quotient = offset / blocks as int;
    let span = blocks as int;
    assert(quotient * span <= offset < quotient * span + span) by (nonlinear_arith)
        requires
            span > 0,
            quotient == offset / span,
    ;
    let position = number * blocks;
    if number < quotient {
        assert(position + span <= quotient * span) by (nonlinear_arith)
            requires
                number + 1 <= quotient,
                span > 0,
                position == number * span,
        ;
    } else if number > quotient {
        assert(position >= quotient * span + span) by (nonlinear_arith)
            requires
                number >= quotient + 1,
                span > 0,
                position == number * span,
        ;
    }
}

impl Segment {
    /// What is left of the segment.
    pub open spec fn left(self) -> int {
        self.end - self.cursor + 1
    }

    /// Whether the segment is not yet complete.
    pub fn is_open(&self) -> (open: bool)
        ensures
            open == (self.left() > 0),
    {
        self.cursor <= self.end
    }

    /// What the source is asked for next.
    pub fn request(&self, max_bytes: usize) -> (request: SourceRequest)
        requires
            0 < self.left() <= u32::MAX,
        ensures
            request == (SourceRequest {
                start: self.cursor,
                count: self.left() as u32,
                max_bytes,
            }),
    {
        SourceRequest { start: self.cursor, count: self.end - self.cursor + 1, max_bytes }
    }

    /// Why an answer is refused, if it is.
    pub open spec fn range_refusal(self, source_tip: BlockId, range: SourceRange) -> Option<
        PipelineError,
    > {
        if range.source_tip != Some(source_tip) {
            Some(PipelineError::SourceChanged)
        } else if self.cursor < range.retained_body_floor || range.blocks@.len() == 0 {
            Some(PipelineError::MissingBody { height: self.cursor })
        } else {
            None
        }
    }

    /// Checks an answer before its blocks are taken.
    pub fn check_range(&self, source_tip: BlockId, range: &SourceRange) -> (checked: Result<
        (),
        PipelineError,
    >)
        ensures
            checked == (match self.range_refusal(source_tip, *range) {
                Some(error) => Err::<(), PipelineError>(error),
                None => Ok(()),
            }),
    {
        let unchanged: bool = match &range.source_tip {
            None => false,
            Some(tip) => tip.height == source_tip.height && bytes::same_bytes(
                tip.hash.as_slice(),
                source_tip.hash.as_slice(),
            ),
        };
        proof {
            if let Some(tip) = range.source_tip {
                assert(tip.hash@ == source_tip.hash@ ==> tip.hash =~= source_tip.hash);
            }
        }
        if !unchanged {
            return Err(PipelineError::SourceChanged);
        }
        if self.cursor < range.retained_body_floor || range.blocks.len() == 0 {
            return Err(PipelineError::MissingBody { height: self.cursor });
        }
        Ok(())
    }

    /// Takes the next block of an answer.
    pub fn accept(&mut self, height: u32) -> (accepted: Result<(), PipelineError>)
        ensures
            final(self).end == old(self).end,
            if old(self).left() <= 0 || height != old(self).cursor {
                accepted == Err::<(), PipelineError>(
                    PipelineError::SourceGap {
                        expected: old(self).cursor,
                        actual: Some(height),
                    },
                ) && *final(self) == *old(self)
            } else if old(self).cursor == u32::MAX {
                accepted == Err::<(), PipelineError>(PipelineError::Ingest(IngestError::Overflow))
                    && *final(self) == *old(self)
            } else {
                accepted == Ok::<(), PipelineError>(()) && final(self).cursor == old(self).cursor
                    + 1
            },
    {
        if self.cursor > self.end || height != self.cursor {
            return Err(PipelineError::SourceGap { expected: self.cursor, actual: Some(height) });
        }
        self.cursor = match self.cursor.checked_add(1) {
            Some(cursor) => cursor,
            None => return Err(PipelineError::Ingest(IngestError::Overflow)),
        };
        Ok(())
    }
}

// ---------------------------------------------------------------------------
// Building
// ---------------------------------------------------------------------------

/// Hands a prepared block to the builder, and builds a batch once enough bytes wait.
pub fn take_block(
    builder: &mut OrderedBuilder,
    block: PreparedCompactBlock,
    source_tip: BlockId,
    max_batch_bytes: usize,
) -> (built: Result<Option<WriteBatch>, IngestError>)
    requires
        old(builder).wf(),
    ensures
        final(builder).wf(),
        match ingest::pushed(old(builder)@, block@) {
            Err(error) => built is Err && built->Err_0 == error && final(builder)@ == old(builder)@,
            Ok(pushed) => if ingest::total_len(pushed.pending) < max_batch_bytes {
                built is Ok && built->Ok_0 is None && final(builder)@ == pushed
            } else {
                ingest::batch_outcome(pushed, source_tip, max_batch_bytes, built, final(builder)@)
            },
        },
{
    builder.push(block)?;
    if builder.pending_bytes() < max_batch_bytes {
        return Ok(None);
    }
    builder.build_batch(source_tip, max_batch_bytes)
}

// ---------------------------------------------------------------------------
// Syncing again
// ---------------------------------------------------------------------------

/// A sync by `plan` has come to its end: the builder is in step with the index, has been given
/// every block of the plan, and has no batch left to build.
pub open spec fn is_synced(
    plan: SyncPlan,
    builder: ingest::BuilderView,
    state: index::StateView,
    max_batch_bytes: usize,
) -> bool {
    let left = ingest::gathered(builder, plan.source_tip.height, max_batch_bytes);
    &&& ingest::builder_fits(builder)
    &&& ingest::in_step(builder, state)
    &&& builder.next_height <= plan.target + 1
    &&& forall|height: u32|
        builder.next_height <= height <= plan.target ==> #[trigger] builder.pending.dom().contains(
            height,
        )
    &&& left.failure is None
    &&& left.records.len() == 0
}

/// A batch takes a sync by a plan no further than its target, and the builder keeps all blocks of
/// the plan that are still to come.
pub proof fn law_batches_keep_to_the_plan(
    plan: SyncPlan,
    builder: ingest::BuilderView,
    max_batch_bytes: usize,
)
    requires
        ingest::builder_fits(builder),
        plan.target + PERSIST_DEPTH == plan.source_tip.height,
        builder.next_height <= plan.target + 1,
        forall|height: u32|
            builder.next_height <= height <= plan.target
                ==> #[trigger] builder.pending.dom().contains(height),
    ensures
        ({
            let after = ingest::gathered(
                builder,
                plan.source_tip.height,
                max_batch_bytes,
            ).builder;
            &&& builder.next_height <= after.next_height <= plan.target + 1
            &&& forall|height: u32|
                after.next_height <= height <= plan.target
                    ==> #[trigger] after.pending.dom().contains(height)
        }),
{
    ingest::law_batch_is_in_order(builder, plan.source_tip.height, max_batch_bytes);
    let all = ingest::gathered(builder, plan.source_tip.height, max_batch_bytes);
    if all.records.len() > 0 {
        assert(ingest::record_is_due(
            builder,
            all.records,
            plan.source_tip.height,
            all.records.len() - 1,
        ));
    }
}

/// A sync ends with the index at the plan's target, and a second sync from the same source, which
/// still has the block at the index's tip, has nothing to do: it leaves the index as it is.
pub proof fn law_second_sync_writes_nothing(
    before: index::StateView,
    probe: SourceRange,
    builder: ingest::BuilderView,
    after: index::StateView,
    second: SourceRange,
    max_batch_bytes: usize,
)
    requires
        sync_plan(before, probe) matches Ok(Some(_)),
        is_synced(sync_plan(before, probe)->Ok_0->Some_0, builder, after, max_batch_bytes),
        second.source_tip == probe.source_tip,
        second.retained_body_floor == probe.retained_body_floor,
        after.durable_tip matches Some(tip) ==> begins_with(second.blocks@, tip),
    ensures
        after.durable_tip matches Some(tip) && tip.height == (sync_plan(
            before,
            probe,
        )->Ok_0->Some_0).target,
        sync_plan(after, second) == Ok::<Option<SyncPlan>, PipelineError>(None),
{
    let plan = sync_plan(before, probe)->Ok_0->Some_0;
    ingest::law_nothing_due_is_left(builder, plan.source_tip.height, max_batch_bytes);
    if builder.next_height <= plan.target {
        assert(builder.pending.dom().contains(builder.next_height));
    }
}

/// A sync that finds nothing to do finds nothing to do again.
pub proof fn law_idle_sync_stays_idle(
    state: index::StateView,
    probe: SourceRange,
    second: SourceRange,
)
    requires
        sync_plan(state, probe) == Ok::<Option<SyncPlan>, PipelineError>(None),
        second.source_tip == probe.source_tip,
        second.retained_body_floor == probe.retained_body_floor,
        second.blocks@ == probe.blocks@,
    ensures
        sync_plan(state, second) == Ok::<Option<SyncPlan>, PipelineError>(None),
{
}

// ---------------------------------------------------------------------------
// Laws
// ---------------------------------------------------------------------------

/// A pipeline works with any limits that are not zero, with segments of up to 4096 blocks, with at
/// least a byte for each fetcher, and with batches no larger than what may wait; with no others.
pub proof fn law_limits_are_sane(config: PipelineConfig)
    ensures
        config_fits(config) <==> config.fetch_workers != 0 && config.parser_workers != 0
            && config.source_segment_blocks != 0 && config.source_segment_blocks <= 4096
            && config.fetch_workers <= config.max_source_bytes && config.max_batch_bytes != 0
            && config.max_pending_bytes != 0 && config.max_batch_bytes <= config.max_pending_bytes,
{
}

/// Fetchers share the bytes evenly: a share is the largest number that all of them can have at
/// once, but at least a byte and at most 64 MiB.
pub proof fn law_fetchers_share_the_bytes(config: PipelineConfig)
    requires
        config.fetch_workers > 0,
    ensures
        ({
            let share = share_of_bytes(config);
            &&& 1 <= share <= 67_108_864
            &&& share == 1 || share * config.fetch_workers <= config.max_source_bytes
            &&& share == 67_108_864 || (share + 1) * config.fetch_workers > config.max_source_bytes
        }),
{
    let bytes = config.max_source_bytes as int;
    let workers = config.fetch_workers as int;
    let even = bytes / workers;
    assert(even * workers <= bytes < (even + 1) * workers) by (nonlinear_arith)
        requires
            workers > 0,
            even == bytes / workers,
    ;
    let share = share_of_bytes(config);
    assert(share <= even ==> share * workers <= even * workers) by (nonlinear_arith)
        requires
            workers > 0,
    ;
    assert(share >= even ==> (share + 1) * workers >= (even + 1) * workers) by (nonlinear_arith)
        requires
            workers > 0,
    ;
}

/// The first height that an index lacks is the one behind its tip, or zero; behind the last height
/// that 32 bits hold there is none.
pub proof fn law_first_missing_is_behind_the_tip(state: index::StateView)
    ensures
        match start_height(state) {
            Ok(start) => match state.durable_tip {
                None => start == 0,
                Some(tip) => start == tip.height + 1,
            },
            Err(error) => error == PipelineError::Ingest(IngestError::Overflow) && (
            state.durable_tip matches Some(tip) && tip.height == 4_294_967_295),
        },
{
}

/// A plan holds exactly the heights that the index lacks and that lie ten or more below the
/// source's tip. There is one where there is such a height, the index's tip is the block that the
/// source has at its height, and the source still has the next body; otherwise the answer says
/// which of these fails, the first in this order.
pub proof fn law_plan_holds_what_is_missing(
    state: index::StateView,
    probe: SourceRange,
    height: u32,
)
    ensures
        ({
            let next: int = match state.durable_tip {
                None => 0,
                Some(tip) => tip.height + 1,
            };
            let agrees = state.durable_tip matches Some(tip) ==> probe.blocks@.len() > 0
                && probe.blocks@[0].height == tip.height && probe.blocks@[0].hash@ == tip.hash@;
            match sync_plan(state, probe) {
                Ok(Some(plan)) => {
                    &&& probe.source_tip == Some(plan.source_tip)
                    &&& agrees
                    &&& next >= probe.retained_body_floor
                    &&& plan.start <= plan.target
                    &&& plan.start <= height <= plan.target <==> next <= height && height + 10
                        <= plan.source_tip.height
                },
                Ok(None) => {
                    &&& probe.source_tip matches Some(tip) && next + 10 > tip.height
                    &&& agrees
                    &&& probe.retained_body_floor <= next <= 4_294_967_295
                },
                Err(PipelineError::Ingest(IngestError::Overflow)) => next > 4_294_967_295,
                Err(PipelineError::NoSourceTip) => probe.source_tip is None && next
                    <= 4_294_967_295,
                Err(PipelineError::DurableTipMismatch { height: at }) => !agrees && at == next - 1
                    && next <= 4_294_967_295 && probe.source_tip is Some,
                Err(PipelineError::MissingBody { height: at }) => at == next && next
                    < probe.retained_body_floor && agrees && probe.source_tip is Some,
                Err(_) => false,
            }
        }),
{
}

/// A segment of `blocks` blocks ends that many heights behind its start, or at the target where
/// that comes first.
pub proof fn law_segments_have_equal_lengths(start: u32, blocks: u32, target: u32)
    requires
        blocks > 0,
        start <= target,
    ensures
        ({
            let end = segment_end(start as int, blocks, target);
            &&& start <= end <= target
            &&& end - start + 1 <= blocks
            &&& end == target || end - start + 1 == blocks
        }),
{
}

/// What is left of a segment is the number of its heights from the cursor to its end.
pub proof fn law_segment_counts_its_heights(segment: Segment)
    ensures
        segment.cursor + segment.left() == segment.end + 1,
{
}

/// An answer is taken exactly where the source's tip is still the same, the body at the cursor is
/// not pruned and there is some block in the answer.
pub proof fn law_answers_of_another_chain_are_refused(
    segment: Segment,
    source_tip: BlockId,
    range: SourceRange,
)
    ensures
        ({
            let refusal = segment.range_refusal(source_tip, range);
            let same = range.source_tip matches Some(tip) && tip.height == source_tip.height
                && tip.hash@ == source_tip.hash@;
            let has_body = range.retained_body_floor <= segment.cursor && range.blocks@.len() > 0;
            &&& refusal is None <==> same && has_body
            &&& refusal == Some(PipelineError::SourceChanged) <==> !same
            &&& refusal == Some(PipelineError::MissingBody { height: segment.cursor }) <==> same
                && !has_body
        }),
{
    if let Some(tip) = range.source_tip {
        assert(tip.hash@ == source_tip.hash@ ==> tip.hash =~= source_tip.hash);
    }
}

} // verus!
