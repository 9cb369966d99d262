//! Putting prepared blocks into height order, and cutting batches for the index from them.
use std::collections::BTreeMap;

use vstd::prelude::*;
use vstd::string::StringExecFns;

use crate::bytes;
use crate::codec;
use crate::codec::{CodecError, CompactBlockRecord, RecordView, TreeSizes};
use crate::index;
use crate::index::{BlockId, IndexState, WriteBatch, PERSIST_DEPTH};
use crate::parser;
use crate::parser::{PreparedCompactBlock, PreparedView};
use crate::text;

verus! {

/// Why a block is not taken, or a batch not built.
#[derive(Clone, Copy, Debug, PartialEq, Eq)]
pub enum IngestError {
    Codec(CodecError),
    DuplicateHeight { height: u32 },
    Parent { height: u32 },
    TreeSize { height: u32 },
    PendingBytes { limit: usize },
    BatchBytes { limit: usize },
    Overflow,
}

impl IngestError {
    /// The error in words.
    pub open spec fn words(self) -> Seq<char> {
        match self {
            IngestError::Codec(error) => error.words(),
            IngestError::DuplicateHeight { height } => "prepared height "@ + text::decimal(
                height as nat,
            ) + " is stale or duplicated"@,
            IngestError::Parent { height } => "block "@ + text::decimal(height as nat)
                + " does not connect to the previous canonical hash"@,
            IngestError::TreeSize { height } => "block "@ + text::decimal(height as nat)
                + " commitment-tree size overflow"@,
            IngestError::PendingBytes { limit } => "ordered pending bytes exceed the "@
                + text::decimal(limit as nat) + "-byte budget"@,
            IngestError::BatchBytes { limit } => "write batch bytes exceed the "@ + text::decimal(
                limit as nat,
            ) + "-byte budget"@,
            IngestError::Overflow => "height, generation, or byte count overflow"@,
        }
    }

    /// The error in words.
    pub fn message(&self) -> (message: String)
        ensures
            message@ == self.words(),
    {
        match self {
            IngestError::Codec(error) => error.message(),
            IngestError::DuplicateHeight { height } => text::text_with_number(
                "prepared height ",
                *height as u64,
                " is stale or duplicated",
            ),
            IngestError::Parent { height } => text::text_with_number(
                "block ",
                *height as u64,
                " does not connect to the previous canonical hash",
            ),
            IngestError::TreeSize { height } => text::text_with_number(
                "block ",
                *height as u64,
                " commitment-tree size overflow",
            ),
            IngestError::PendingBytes { limit } => text::text_with_number(
                "ordered pending bytes exceed the ",
                *limit as u64,
                "-byte budget",
            ),
            IngestError::BatchBytes { limit } => text::text_with_number(
                "write batch bytes exceed the ",
                *limit as u64,
                "-byte budget",
            ),
            IngestError::Overflow => String::from_str(
                "height, generation, or byte count overflow",
            ),
        }
    }
}

/// Restores parser output to canonical height order under a byte budget.
pub struct OrderedBuilder {
    next_height: u32,
    previous_hash: Option<[u8; 32]>,
    tree_sizes: TreeSizes,
    generation: u64,
    pending: BTreeMap<u32, (PreparedCompactBlock, usize)>,
    pending_bytes: usize,
    max_pending_bytes: usize,
}

/// An [`OrderedBuilder`] with its blocks as a map.
#[verifier::ext_equal]
pub struct BuilderView {
    pub next_height: u32,
    pub previous_hash: Option<Seq<u8>>,
    pub tree_sizes: TreeSizes,
    pub generation: u64,
    pub pending: Map<u32, PreparedView>,
    pub max_pending_bytes: usize,
}

/// How long a block's record is when encoded.
pub open spec fn block_len(block: PreparedView) -> nat {
    codec::record_len(block.header.len(), block.transactions)
}

/// What blocks take together.
pub open spec fn total_len(blocks: Map<u32, PreparedView>) -> nat
    decreases blocks.dom().len(),
    when blocks.dom().finite()
{
    if blocks.dom().len() == 0 {
        0
    } else {
        let height = blocks.dom().choose();
        block_len(blocks[height]) + total_len(blocks.remove(height))
    }
}

/// Builders that exist: every block waits under its own height, at or above the next one, and all
/// of them fit the budget.
pub open spec fn builder_fits(builder: BuilderView) -> bool {
    &&& builder.pending.dom().finite()
    &&& forall|height: u32| #[trigger]
        builder.pending.dom().contains(height) ==> height >= builder.next_height
            && builder.pending[height].height == height && block_len(builder.pending[height])
            <= codec::MAX_RECORD_BYTES
    &&& total_len(builder.pending) <= builder.max_pending_bytes
}

proof fn lemma_total_len_remove(blocks: Map<u32, PreparedView>, height: u32)
    requires
        blocks.dom().finite(),
        blocks.dom().contains(height),
    ensures
        total_len(blocks) == block_len(blocks[height]) + total_len(blocks.remove(height)),
    decreases blocks.dom().len(),
{
    let chosen = blocks.dom().choose();
    assert(blocks.dom().contains(chosen)) by {
        if blocks.dom().len() == 0 {
            vstd::set_lib::lemma_set_empty_equivalency_len(blocks.dom());
        }
    }
    if chosen != height {
        lemma_total_len_remove(blocks.remove(chosen), height);
        lemma_total_len_remove(blocks.remove(height), chosen);
        assert(blocks.remove(chosen).remove(height) =~= blocks.remove(height).remove(chosen));
    }
}

proof fn lemma_total_len_insert(blocks: Map<u32, PreparedView>, height: u32, block: PreparedView)
    requires
        blocks.dom().finite(),
        !blocks.dom().contains(height),
    ensures
        total_len(blocks.insert(height, block)) == total_len(blocks) + block_len(block),
{
    lemma_total_len_remove(blocks.insert(height, block), height);
    assert(blocks.insert(height, block).remove(height) =~= blocks);
}

/// A view of the blocks that wait.
pub open spec fn pending_view(pending: Map<u32, (PreparedCompactBlock, usize)>) -> Map<
    u32,
    PreparedView,
> {
    pending.map_values(|entry: (PreparedCompactBlock, usize)| entry.0@)
}

pub open spec fn hash_view(hash: Option<[u8; 32]>) -> Option<Seq<u8>> {
    match hash {
        None => None,
        Some(hash) => Some(hash@),
    }
}

impl View for OrderedBuilder {
    type V = BuilderView;

    closed spec fn view(&self) -> BuilderView {
        BuilderView {
            next_height: self.next_height,
            previous_hash: hash_view(self.previous_hash),
            tree_sizes: self.tree_sizes,
            generation: self.generation,
            pending: pending_view(self.pending@),
            max_pending_bytes: self.max_pending_bytes,
        }
    }
}

/// The builder on an index in `state`.
pub open spec fn builder_on(state: index::StateView, max_pending_bytes: usize) -> BuilderView {
    BuilderView {
        next_height: match state.durable_tip {
            Some(tip) => (tip.height + 1) as u32,
            None => 0,
        },
        previous_hash: match state.durable_tip {
            Some(tip) => Some(tip.hash@),
            None => None,
        },
        tree_sizes: state.tree_sizes,
        generation: state.generation,
        pending: Map::empty(),
        max_pending_bytes,
    }
}

/// What becomes of a builder that is handed a block.
pub open spec fn pushed(builder: BuilderView, block: PreparedView) -> Result<
    BuilderView,
    IngestError,
> {
    let total = total_len(builder.pending) + block_len(block);
    if block.height < builder.next_height || builder.pending.dom().contains(block.height) {
        Err(IngestError::DuplicateHeight { height: block.height })
    } else if block_len(block) > codec::MAX_RECORD_BYTES {
        Err(IngestError::Codec(CodecError::Length))
    } else if total > usize::MAX {
        Err(IngestError::Overflow)
    } else if total > builder.max_pending_bytes {
        Err(IngestError::PendingBytes { limit: builder.max_pending_bytes })
    } else {
        Ok(BuilderView { pending: builder.pending.insert(block.height, block), ..builder })
    }
}

// ---------------------------------------------------------------------------
// Batches
// ---------------------------------------------------------------------------

/// Tree sizes behind a block, where they fit.
pub open spec fn sizes_after(sizes: TreeSizes, block: PreparedView) -> Option<TreeSizes> {
    let sapling = sizes.sapling + block.sapling_additions;
    let orchard = sizes.orchard + block.orchard_additions;
    let ironwood = sizes.ironwood + block.ironwood_additions;
    if sapling > u32::MAX || orchard > u32::MAX || ironwood > u32::MAX {
        None
    } else {
        Some(
            TreeSizes {
                sapling: sapling as u32,
                orchard: orchard as u32,
                ironwood: ironwood as u32,
            },
        )
    }
}

/// The record of a block whose trees end at `sizes`.
pub open spec fn record_of(block: PreparedView, sizes: TreeSizes) -> RecordView {
    RecordView {
        height: block.height,
        hash: block.hash,
        previous_hash: block.previous_hash,
        time: block.time,
        header: block.header,
        transactions: block.transactions,
        end_tree_sizes: sizes,
    }
}

/// What a builder does next for a batch.
pub enum BuildStep {
    /// The batch ends here.
    Stop,
    /// The next block cannot follow.
    Fail(IngestError),
    /// The next block joins the batch.
    Take(RecordView),
}

/// Decides on the block at the next height, for a batch that has `taken` blocks of `bytes` bytes.
pub open spec fn build_step(
    builder: BuilderView,
    taken: nat,
    bytes: nat,
    source_height: u32,
    max_batch_bytes: usize,
) -> BuildStep {
    let height = builder.next_height;
    let block = builder.pending[height];
    if !builder.pending.dom().contains(height) || source_height < height + PERSIST_DEPTH {
        BuildStep::Stop
    } else if bytes + block_len(block) > usize::MAX {
        BuildStep::Fail(IngestError::Overflow)
    } else if bytes + block_len(block) > max_batch_bytes {
        if taken == 0 {
            BuildStep::Fail(IngestError::BatchBytes { limit: max_batch_bytes })
        } else {
            BuildStep::Stop
        }
    } else if builder.previous_hash is Some && builder.previous_hash != Some(block.previous_hash) {
        BuildStep::Fail(IngestError::Parent { height })
    } else {
        match sizes_after(builder.tree_sizes, block) {
            None => BuildStep::Fail(IngestError::TreeSize { height }),
            Some(sizes) => BuildStep::Take(record_of(block, sizes)),
        }
    }
}

/// The builder once `record` has left it.
pub open spec fn without_record(builder: BuilderView, record: RecordView) -> BuilderView {
    BuilderView {
        next_height: (builder.next_height + 1) as u32,
        previous_hash: Some(record.hash),
        tree_sizes: record.end_tree_sizes,
        generation: builder.generation,
        pending: builder.pending.remove(builder.next_height),
        max_pending_bytes: builder.max_pending_bytes,
    }
}

/// A batch in the making: the builder, what has left it, and why it stopped if something failed.
#[verifier::ext_equal]
pub struct Gathered {
    pub builder: BuilderView,
    pub records: Seq<RecordView>,
    pub failure: Option<IngestError>,
}

/// Takes blocks from `builder` until the batch ends, behind `records` that take `bytes` bytes.
pub open spec fn gather(
    builder: BuilderView,
    records: Seq<RecordView>,
    bytes: nat,
    source_height: u32,
    max_batch_bytes: usize,
) -> Gathered
    decreases builder.pending.dom().len(),
    when builder.pending.dom().finite()
{
    match build_step(builder, records.len(), bytes, source_height, max_batch_bytes) {
        BuildStep::Stop => Gathered { builder, records, failure: None },
        BuildStep::Fail(error) => Gathered { builder, records, failure: Some(error) },
        BuildStep::Take(record) => if builder.pending.dom().contains(builder.next_height) {
            gather(
                without_record(builder, record),
                records.push(record),
                bytes + block_len(builder.pending[builder.next_height]),
                source_height,
                max_batch_bytes,
            )
        } else {
            Gathered { builder, records, failure: None }
        },
    }
}

/// All that `builder` gives for one batch.
pub open spec fn gathered(
    builder: BuilderView,
    source_height: u32,
    max_batch_bytes: usize,
) -> Gathered {
    gather(builder, Seq::empty(), 0, source_height, max_batch_bytes)
}

/// `built` is what a builder gives for one batch, and `after` is what it leaves of the builder.
///
/// Blocks that were taken before one that cannot follow are gone.
pub open spec fn batch_outcome(
    before: BuilderView,
    source_tip: BlockId,
    max_batch_bytes: usize,
    built: Result<Option<WriteBatch>, IngestError>,
    after: BuilderView,
) -> bool {
    let all = gathered(before, source_tip.height, max_batch_bytes);
    match all.failure {
        Some(error) => built is Err && built->Err_0 == error && after == all.builder,
        None => if all.records.len() == 0 {
            built is Ok && built->Ok_0 is None && after == before
        } else if before.generation == u64::MAX {
            built is Err && built->Err_0 == IngestError::Overflow && after == all.builder
        } else {
            &&& built is Ok
            &&& built->Ok_0 matches Some(batch) && batch@ == (index::BatchView {
                base_generation: before.generation,
                source_tip,
                records: all.records,
            })
            &&& after == (BuilderView {
                generation: (before.generation + 1) as u64,
                ..all.builder
            })
        },
    }
}

impl OrderedBuilder {
    /// What holds of every builder.
    pub closed spec fn wf(&self) -> bool {
        &&& builder_fits(self@)
        &&& self.pending_bytes == total_len(self@.pending)
        &&& forall|height: u32| #[trigger]
            self.pending@.dom().contains(height) ==> self.pending@[height].1 == block_len(
                self.pending@[height].0@,
            )
    }

    /// A builder without blocks, on an index in `state`.
    pub fn new(state: IndexState, max_pending_bytes: usize) -> (builder: Result<Self, IngestError>)
        ensures
            match builder {
                Ok(builder) => builder.wf() && builder@ == builder_on(state@, max_pending_bytes) && (
                state@.durable_tip matches Some(tip) ==> tip.height < u32::MAX),
                Err(error) => error == IngestError::Overflow && (state@.durable_tip matches Some(
                    tip,
                ) && tip.height == u32::MAX),
            },
    {
        let next_height: u32 = match state.durable_tip() {
            Some(tip) => match tip.height.checked_add(1) {
                Some(height) => height,
                None => return Err(IngestError::Overflow),
            },
            None => 0,
        };
        let previous_hash: Option<[u8; 32]> = match state.durable_tip() {
            Some(tip) => Some(tip.hash),
            None => None,
        };
        let pending: BTreeMap<u32, (PreparedCompactBlock, usize)> = BTreeMap::new();
        assert(pending_view(pending@) =~= Map::empty());
        Ok(
            OrderedBuilder {
                next_height,
                previous_hash,
                tree_sizes: state.tree_sizes(),
                generation: state.generation(),
                pending,
                pending_bytes: 0,
                max_pending_bytes,
            },
        )
    }

    /// Bytes of the blocks that wait.
    pub fn pending_bytes(&self) -> (bytes: usize)
        requires
            self.wf(),
        ensures
            bytes == total_len(self@.pending),
            builder_fits(self@),
    {
        self.pending_bytes
    }

    /// Takes a block in any order.
    pub fn push(&mut self, block: PreparedCompactBlock) -> (taken: Result<(), IngestError>)
        requires
            old(self).wf(),
        ensures
            final(self).wf(),
            match pushed(old(self)@, block@) {
                Ok(builder) => taken is Ok && final(self)@ == builder,
                Err(error) => taken == Err::<(), IngestError>(error) && final(self)@ == old(self)@,
            },
    {
        let height: u32 = block.height;
        if height < self.next_height || self.pending.contains_key(&height) {
            return Err(IngestError::DuplicateHeight { height });
        }
        let bytes: usize = match codec::encoded_record_len(
            block.header.len(),
            block.transactions.as_slice(),
        ) {
            Ok(bytes) => bytes,
            Err(error) => return Err(IngestError::Codec(error)),
        };
        let pending_bytes: usize = match self.pending_bytes.checked_add(bytes) {
            Some(pending_bytes) => pending_bytes,
            None => return Err(IngestError::Overflow),
        };
        if pending_bytes > self.max_pending_bytes {
            return Err(IngestError::PendingBytes { limit: self.max_pending_bytes });
        }
        proof {
            lemma_total_len_insert(self@.pending, height, block@);
        }
        self.pending_bytes = pending_bytes;
        self.pending.insert(height, (block, bytes));
        assert(pending_view(self.pending@) =~= old(self)@.pending.insert(height, block@));
        Ok(())
    }

    /// Builds one bounded durable batch, leaving gaps and blocks less than [`PERSIST_DEPTH`] below
    /// `source_tip` pending.
    pub fn build_batch(&mut self, source_tip: BlockId, max_batch_bytes: usize) -> (built: Result<
        Option<WriteBatch>,
        IngestError,
    >)
        requires
            old(self).wf(),
        ensures
            final(self).wf(),
            batch_outcome(old(self)@, source_tip, max_batch_bytes, built, final(self)@),
    {
        let ghost start = self@;
        let ghost all = gathered(start, source_tip.height, max_batch_bytes);
        let base_generation: u64 = self.generation;
        let mut batch_bytes: usize = 0;
        let mut records: Vec<CompactBlockRecord> = Vec::new();
        assert(codec::records_view(records@) =~= Seq::empty());
        loop
            invariant
                self.wf(),
                start == old(self)@,
                self@.generation == start.generation,
                base_generation == start.generation,
                all == gathered(start, source_tip.height, max_batch_bytes),
                all == gather(
                    self@,
                    codec::records_view(records@),
                    batch_bytes as nat,
                    source_tip.height,
                    max_batch_bytes,
                ),
                batch_bytes <= max_batch_bytes || records@.len() == 0,
                records@.len() == 0 ==> self@ == start,
                codec::is_chain(codec::records_view(records@)),
                records@.len() > 0 ==> {
                    let last = codec::records_view(records@).last();
                    self@.previous_hash == Some(last.hash) && self@.next_height == last.height + 1
                },
            ensures
                all.failure is None,
                all.builder == self@,
                all.records == codec::records_view(records@),
            decreases self@.pending.dom().len(),
        {
            let ghost views = codec::records_view(records@);
            let ghost before = self@;
            let ghost step = build_step(
                before,
                views.len(),
                batch_bytes as nat,
                source_tip.height,
                max_batch_bytes,
            );
            let next: u32 = self.next_height;
            let sizes: TreeSizes = match self.pending.get(&next) {
                None => break,
                Some(entry) => {
                    let block = &entry.0;
                    let bytes: usize = entry.1;
                    assert(before.pending.dom().contains(next));
                    assert(before.pending[next] == block@);
                    assert(bytes == block_len(block@));
                    if source_tip.height.saturating_sub(block.height) < PERSIST_DEPTH
                        || source_tip.height < block.height {
                        break;
                    }
                    match batch_bytes.checked_add(bytes) {
                        None => {
                            assert(source_tip.height >= next + PERSIST_DEPTH);
                            assert(batch_bytes + block_len(before.pending[next]) > usize::MAX);
                            assert(step == BuildStep::Fail(IngestError::Overflow));
                            return Err(IngestError::Overflow);
                        },
                        Some(sum) => if sum > max_batch_bytes {
                            if records.len() == 0 {
                                return Err(IngestError::BatchBytes { limit: max_batch_bytes });
                            }
                            break;
                        },
                    }
                    if let Some(previous) = &self.previous_hash {
                        if !bytes::same_bytes(
                            block.previous_hash.as_slice(),
                            previous.as_slice(),
                        ) {
                            assert(step == BuildStep::Fail(IngestError::Parent { height: next }));
                            return Err(IngestError::Parent { height: block.height });
                        }
                    }
                    let sapling: Option<u32> = self.tree_sizes.sapling.checked_add(
                        block.sapling_additions,
                    );
                    let orchard: Option<u32> = self.tree_sizes.orchard.checked_add(
                        block.orchard_additions,
                    );
                    let ironwood: Option<u32> = self.tree_sizes.ironwood.checked_add(
                        block.ironwood_additions,
                    );
                    match (sapling, orchard, ironwood) {
                        (Some(sapling), Some(orchard), Some(ironwood)) => TreeSizes {
                            sapling,
                            orchard,
                            ironwood,
                        },
                        _ => return Err(IngestError::TreeSize { height: block.height }),
                    }
                },
            };
            proof {
                lemma_total_len_remove(before.pending, next);
            }
            let (block, bytes) = match self.pending.remove(&next) {
                Some(entry) => entry,
                None => break,
            };
            let record = CompactBlockRecord {
                height: block.height,
                hash: block.hash,
                previous_hash: block.previous_hash,
                time: block.time,
                header: block.header,
                transactions: block.transactions,
                end_tree_sizes: sizes,
            };
            batch_bytes = batch_bytes + bytes;
            self.pending_bytes = self.pending_bytes - bytes;
            self.next_height = next + 1;
            self.previous_hash = Some(record.hash);
            self.tree_sizes = sizes;
            records.push(record);
            proof {
                assert(pending_view(self.pending@) =~= before.pending.remove(next));
                assert(codec::records_view(records@) =~= views.push(record@));
                assert(record@ == record_of(before.pending[next], sizes));
                assert(self@ == without_record(before, record@));
            }
        }
        if records.len() == 0 {
            return Ok(None);
        }
        self.generation = match self.generation.checked_add(1) {
            Some(generation) => generation,
            None => return Err(IngestError::Overflow),
        };
        Ok(Some(WriteBatch::new(base_generation, source_tip, records)))
    }
}

// ---------------------------------------------------------------------------
// Laws
// ---------------------------------------------------------------------------

/// Blocks may come in any order: two that are taken one way are taken the other way too, and leave
/// the same builder.
pub proof fn law_push_order_is_free(builder: BuilderView, first: PreparedView, second: PreparedView)
    requires
        builder_fits(builder),
        pushed(builder, first) is Ok,
        pushed(pushed(builder, first)->Ok_0, second) is Ok,
    ensures
        pushed(builder, second) is Ok,
        pushed(pushed(builder, second)->Ok_0, first) == pushed(
            pushed(builder, first)->Ok_0,
            second,
        ),
{
    lemma_total_len_insert(builder.pending, first.height, first);
    lemma_total_len_insert(builder.pending, second.height, second);
    assert(builder.pending.insert(first.height, first).insert(second.height, second)
        =~= builder.pending.insert(second.height, second).insert(first.height, first));
}

/// What becomes of a builder that is handed blocks one after the other, up to the first that it
/// does not take.
pub open spec fn pushed_all(builder: BuilderView, blocks: Seq<PreparedView>) -> Result<
    BuilderView,
    IngestError,
>
    decreases blocks.len(),
{
    if blocks.len() == 0 {
        Ok(builder)
    } else {
        match pushed(builder, blocks[0]) {
            Err(error) => Err(error),
            Ok(next) => pushed_all(next, blocks.drop_first()),
        }
    }
}

proof fn lemma_pushed_fits(builder: BuilderView, block: PreparedView)
    requires
        builder_fits(builder),
        pushed(builder, block) is Ok,
    ensures
        builder_fits(pushed(builder, block)->Ok_0),
{
    lemma_total_len_insert(builder.pending, block.height, block);
}

/// Any of the blocks may come before all others.
proof fn lemma_pushed_first(builder: BuilderView, blocks: Seq<PreparedView>, i: int)
    requires
        builder_fits(builder),
        pushed_all(builder, blocks) is Ok,
        0 <= i < blocks.len(),
    ensures
        pushed(builder, blocks[i]) is Ok,
        pushed_all(pushed(builder, blocks[i])->Ok_0, blocks.remove(i)) == pushed_all(
            builder,
            blocks,
        ),
    decreases i,
{
    let rest = blocks.drop_first();
    if i == 0 {
        assert(blocks.remove(0) =~= rest);
    } else {
        let next = pushed(builder, blocks[0])->Ok_0;
        lemma_pushed_fits(builder, blocks[0]);
        lemma_pushed_first(next, rest, i - 1);
        law_push_order_is_free(builder, blocks[0], blocks[i]);
        assert(blocks.remove(i).drop_first() =~= rest.remove(i - 1));
        assert(blocks.remove(i)[0] == blocks[0]);
    }
}

/// Blocks may come in any order: what is taken in one order is taken in every other order too, and
/// leaves the same builder.
pub proof fn law_any_push_order_is_free(
    builder: BuilderView,
    first: Seq<PreparedView>,
    second: Seq<PreparedView>,
)
    requires
        builder_fits(builder),
        first.to_multiset() == second.to_multiset(),
        pushed_all(builder, first) is Ok,
    ensures
        pushed_all(builder, second) == pushed_all(builder, first),
    decreases second.len(),
{
    first.to_multiset_ensures();
    second.to_multiset_ensures();
    if second.len() > 0 {
        let block = second[0];
        assert(second.contains(block));
        assert(second.to_multiset().count(block) > 0);
        assert(first.contains(block));
        let i = first.index_of(block);
        lemma_pushed_first(builder, first, i);
        lemma_pushed_fits(builder, block);
        assert(second.remove(0) =~= second.drop_first());
        assert(first.remove(i).to_multiset() == second.drop_first().to_multiset());
        law_any_push_order_is_free(
            pushed(builder, block)->Ok_0,
            first.remove(i),
            second.drop_first(),
        );
    }
}

/// What records take together when encoded.
pub open spec fn records_len(records: Seq<RecordView>) -> nat
    decreases records.len(),
{
    if records.len() == 0 {
        0
    } else {
        records_len(records.drop_last()) + codec::record_len(
            records.last().header.len(),
            records.last().transactions,
        )
    }
}

/// Tree sizes in front of record `i` of a batch on a builder.
pub open spec fn sizes_before(builder: BuilderView, records: Seq<RecordView>, i: int) -> TreeSizes {
    if i == 0 {
        builder.tree_sizes
    } else {
        records[i - 1].end_tree_sizes
    }
}

/// Record `i` of a batch is that of the block that waited at its height, deep enough, with its
/// trees behind those of the record before it.
pub open spec fn record_is_due(
    builder: BuilderView,
    records: Seq<RecordView>,
    source_height: u32,
    i: int,
) -> bool {
    let height = (builder.next_height + i) as u32;
    let block = builder.pending[height];
    &&& builder.next_height + i <= u32::MAX
    &&& builder.pending.dom().contains(height)
    &&& height + PERSIST_DEPTH <= source_height
    &&& sizes_after(sizes_before(builder, records, i), block) == Some(records[i].end_tree_sizes)
    &&& records[i] == record_of(block, records[i].end_tree_sizes)
    &&& records[i].height == height
    &&& i == 0 && builder.previous_hash is Some ==> builder.previous_hash == Some(
        records[0].previous_hash,
    )
}

/// What `records` taken from `builder` leave of it.
pub open spec fn builder_without(
    builder: BuilderView,
    records: Seq<RecordView>,
    after: BuilderView,
) -> bool {
    &&& after.generation == builder.generation
    &&& after.max_pending_bytes == builder.max_pending_bytes
    &&& after.next_height == builder.next_height + records.len()
    &&& after.tree_sizes == sizes_before(builder, records, records.len() as int)
    &&& after.previous_hash == if records.len() == 0 {
        builder.previous_hash
    } else {
        Some(records.last().hash)
    }
    &&& after.pending == builder.pending.restrict(
        Set::new(|height: u32| height >= after.next_height),
    )
}

/// `records` can be taken from `builder` as a batch, and leave `after`.
pub open spec fn is_batch_from(
    builder: BuilderView,
    records: Seq<RecordView>,
    after: BuilderView,
    source_height: u32,
    max_batch_bytes: usize,
) -> bool {
    &&& forall|i: int|
        0 <= i < records.len() ==> #[trigger] record_is_due(builder, records, source_height, i)
    &&& codec::is_chain(records)
    &&& records.len() > 0 ==> records_len(records) <= max_batch_bytes
    &&& builder_without(builder, records, after)
    &&& builder_fits(after)
}

proof fn lemma_gather(
    start: BuilderView,
    builder: BuilderView,
    records: Seq<RecordView>,
    source_height: u32,
    max_batch_bytes: usize,
)
    requires
        builder_fits(start),
        is_batch_from(start, records, builder, source_height, max_batch_bytes),
    ensures
        ({
            let all = gather(
                builder,
                records,
                records_len(records),
                source_height,
                max_batch_bytes,
            );
            is_batch_from(start, all.records, all.builder, source_height, max_batch_bytes)
        }),
    decreases builder.pending.dom().len(),
{
    let bytes = records_len(records);
    match build_step(builder, records.len(), bytes, source_height, max_batch_bytes) {
        BuildStep::Stop => {},
        BuildStep::Fail(error) => {},
        BuildStep::Take(record) => {
            let height = builder.next_height;
            let block = builder.pending[height];
            let longer = records.push(record);
            let after = without_record(builder, record);
            lemma_total_len_remove(builder.pending, height);
            assert(longer.drop_last() =~= records);
            assert(start.pending.dom().contains(height));
            assert(start.pending[height] == block);
            assert forall|i: int| 0 <= i < longer.len() implies #[trigger] record_is_due(
                start,
                longer,
                source_height,
                i,
            ) by {
                if i < records.len() {
                    assert(record_is_due(start, records, source_height, i));
                }
            }
            assert forall|i: int, j: int| 0 <= i && j == i + 1 && j < longer.len() implies codec::linked(
                #[trigger] longer[i],
                #[trigger] longer[j],
            ) by {
                if j < records.len() {
                    assert(codec::linked(records[i], records[j]));
                } else {
                    assert(record_is_due(start, records, source_height, i));
                }
            }
            assert(after.pending =~= start.pending.restrict(
                Set::new(|h: u32| h >= after.next_height),
            ));
            lemma_gather(start, after, longer, source_height, max_batch_bytes);
        },
    }
}

/// A batch holds the blocks that follow the builder's place, without a gap, each on top of the
/// one before it, [`PERSIST_DEPTH`] or more below the tip, with cumulative tree sizes and within
/// the limit; the builder keeps all other blocks.
pub proof fn law_batch_is_in_order(
    builder: BuilderView,
    source_height: u32,
    max_batch_bytes: usize,
)
    requires
        builder_fits(builder),
    ensures
        ({
            let all = gathered(builder, source_height, max_batch_bytes);
            is_batch_from(builder, all.records, all.builder, source_height, max_batch_bytes)
        }),
{
    let none = Seq::<RecordView>::empty();
    assert(builder.pending =~= builder.pending.restrict(
        Set::new(|height: u32| height >= builder.next_height),
    ));
    lemma_gather(builder, builder, none, source_height, max_batch_bytes);
}

/// The builder stands where an index in `state` ends.
pub open spec fn in_step(builder: BuilderView, state: index::StateView) -> bool {
    let fresh = builder_on(state, builder.max_pending_bytes);
    &&& state.durable_tip matches Some(tip) ==> tip.height < u32::MAX
    &&& builder.next_height == fresh.next_height
    &&& builder.previous_hash == fresh.previous_hash
    &&& builder.tree_sizes == fresh.tree_sizes
    &&& builder.generation == fresh.generation
}

/// An index that the builder is in step with accepts the batches that it builds, and once it has
/// written one, the builder is in step with it again.
pub proof fn law_builder_keeps_step(
    builder: BuilderView,
    state: index::StateView,
    source_tip: BlockId,
    max_batch_bytes: usize,
    written: index::StateView,
)
    requires
        builder_fits(builder),
        in_step(builder, state),
        builder.generation < u64::MAX,
        ({
            let all = gathered(builder, source_tip.height, max_batch_bytes);
            &&& all.records.len() > 0
            &&& written.durable_tip matches Some(tip) && index::is_id_of(tip, all.records.last())
            &&& written.tree_sizes == all.records.last().end_tree_sizes
            &&& written.generation == state.generation + 1
        }),
    ensures
        ({
            let all = gathered(builder, source_tip.height, max_batch_bytes);
            let batch = index::BatchView {
                base_generation: builder.generation,
                source_tip,
                records: all.records,
            };
            let after = BuilderView {
                generation: (builder.generation + 1) as u64,
                ..all.builder
            };
            &&& index::batch_fits(batch)
            &&& index::write_refusal(state, batch) is None
            &&& in_step(after, written)
        }),
{
    let all = gathered(builder, source_tip.height, max_batch_bytes);
    law_batch_is_in_order(builder, source_tip.height, max_batch_bytes);
    assert(record_is_due(builder, all.records, source_tip.height, 0));
    assert(record_is_due(builder, all.records, source_tip.height, all.records.len() - 1));
}

/// A builder that gives no batch has no block at its next height that is deep enough.
pub proof fn law_nothing_due_is_left(
    builder: BuilderView,
    source_height: u32,
    max_batch_bytes: usize,
)
    requires
        builder_fits(builder),
        ({
            let all = gathered(builder, source_height, max_batch_bytes);
            all.failure is None && all.records.len() == 0
        }),
    ensures
        !builder.pending.dom().contains(builder.next_height) || source_height < builder.next_height
            + PERSIST_DEPTH,
{
    law_batch_is_in_order(builder, source_height, max_batch_bytes);
    let all = gathered(builder, source_height, max_batch_bytes);
    if let BuildStep::Take(record) = build_step(builder, 0, 0, source_height, max_batch_bytes) {
        lemma_gather_grows(
            without_record(builder, record),
            seq![record],
            block_len(builder.pending[builder.next_height]),
            source_height,
            max_batch_bytes,
        );
        assert(Seq::<RecordView>::empty().push(record) =~= seq![record]);
    }
}

proof fn lemma_gather_grows(
    builder: BuilderView,
    records: Seq<RecordView>,
    bytes: nat,
    source_height: u32,
    max_batch_bytes: usize,
)
    requires
        builder.pending.dom().finite(),
    ensures
        gather(builder, records, bytes, source_height, max_batch_bytes).records.len()
            >= records.len(),
    decreases builder.pending.dom().len(),
{
    if let BuildStep::Take(record) = build_step(
        builder,
        records.len(),
        bytes,
        source_height,
        max_batch_bytes,
    ) {
        lemma_gather_grows(
            without_record(builder, record),
            records.push(record),
            bytes + block_len(builder.pending[builder.next_height]),
            source_height,
            max_batch_bytes,
        );
    }
}

/// A builder stands right behind the tip of the index that it is made for, with the tip's hash, the
/// index's generation and tree sizes, and no block; behind an empty index it stands at zero.
pub proof fn law_builder_starts_behind_the_tip(state: index::StateView, max_pending_bytes: usize)
    requires
        state.durable_tip matches Some(tip) ==> tip.height < u32::MAX,
    ensures
        ({
            let builder = builder_on(state, max_pending_bytes);
            &&& state.durable_tip is None ==> builder.next_height == 0 && builder.previous_hash is None
            &&& state.durable_tip matches Some(tip) ==> builder.next_height == tip.height + 1
                && builder.previous_hash == Some(tip.hash@)
            &&& builder.generation == state.generation
            &&& builder.tree_sizes.sapling == state.tree_sizes.sapling
            &&& builder.tree_sizes.orchard == state.tree_sizes.orchard
            &&& builder.tree_sizes.ironwood == state.tree_sizes.ironwood
            &&& builder.max_pending_bytes == max_pending_bytes
            &&& forall|height: u32| !builder.pending.dom().contains(height)
        }),
{
}

/// A block is taken exactly where its height is still to come and free, its record is not longer
/// than two million bytes, and it fits the budget with those that wait; otherwise the first of these
/// that fails is told. A block that is taken waits under its height, and nothing else changes.
pub proof fn law_push_takes_what_fits(builder: BuilderView, block: PreparedView)
    requires
        builder_fits(builder),
    ensures
        ({
            let len = codec::record_len(block.header.len(), block.transactions);
            let free = block.height >= builder.next_height && !builder.pending.dom().contains(
                block.height,
            );
            let total = total_len(builder.pending) + len;
            match pushed(builder, block) {
                Ok(after) => {
                    &&& free
                    &&& len <= 2_000_000
                    &&& total <= builder.max_pending_bytes
                    &&& after.pending.dom().contains(block.height)
                    &&& after.pending[block.height] == block
                    &&& forall|height: u32|
                        height != block.height ==> (#[trigger] after.pending.dom().contains(height)
                            <==> builder.pending.dom().contains(height)) && (
                        builder.pending.dom().contains(height) ==> after.pending[height]
                            == builder.pending[height])
                    &&& total_len(after.pending) == total
                    &&& after.next_height == builder.next_height
                    &&& after.previous_hash == builder.previous_hash
                    &&& after.tree_sizes == builder.tree_sizes
                    &&& after.generation == builder.generation
                    &&& after.max_pending_bytes == builder.max_pending_bytes
                },
                Err(error) => if !free {
                    error == IngestError::DuplicateHeight { height: block.height }
                } else if len > 2_000_000 {
                    error == IngestError::Codec(CodecError::Length)
                } else {
                    total > builder.max_pending_bytes && error == if total > usize::MAX {
                        IngestError::Overflow
                    } else {
                        IngestError::PendingBytes { limit: builder.max_pending_bytes }
                    }
                },
            }
        }),
{
    if pushed(builder, block) is Ok {
        lemma_total_len_insert(builder.pending, block.height, block);
    }
}

/// What waits takes nothing where nothing waits, and with one block more as much more as that
/// block's record is long.
pub proof fn law_waiting_bytes_add_up(blocks: Map<u32, PreparedView>, height: u32, block: PreparedView)
    requires
        blocks.dom().finite(),
        !blocks.dom().contains(height),
    ensures
        total_len(Map::<u32, PreparedView>::empty()) == 0,
        total_len(blocks.insert(height, block)) == total_len(blocks) + codec::record_len(
            block.header.len(),
            block.transactions,
        ),
{
    lemma_total_len_insert(blocks, height, block);
}

/// Every record of a batch is the block that waited at its height: its height, hash, previous hash,
/// time, header and transactions are that block's, and each pool's tree grows over the record in
/// front of it by that block's additions to the same pool. The heights run on from the builder's
/// place without a gap, ten or more below the tip, and every block is on top of the one before it.
pub proof fn law_batch_holds_the_waiting_blocks(
    before: BuilderView,
    source_tip: BlockId,
    max_batch_bytes: usize,
    built: Result<Option<WriteBatch>, IngestError>,
    after: BuilderView,
    i: int,
)
    requires
        builder_fits(before),
        batch_outcome(before, source_tip, max_batch_bytes, built, after),
        built matches Ok(Some(batch)) && 0 <= i < batch@.records.len(),
    ensures
        ({
            let records = built->Ok_0->Some_0@.records;
            let height = before.next_height + i;
            let block = before.pending[height as u32];
            let record = records[i];
            let sizes = if i == 0 {
                before.tree_sizes
            } else {
                records[i - 1].end_tree_sizes
            };
            &&& height + 10 <= source_tip.height
            &&& before.pending.dom().contains(height as u32)
            &&& record.height == height
            &&& record.hash == block.hash
            &&& record.previous_hash == block.previous_hash
            &&& record.time == block.time
            &&& record.header == block.header
            &&& record.transactions == block.transactions
            &&& record.end_tree_sizes.sapling == sizes.sapling + block.sapling_additions
            &&& record.end_tree_sizes.orchard == sizes.orchard + block.orchard_additions
            &&& record.end_tree_sizes.ironwood == sizes.ironwood + block.ironwood_additions
            &&& i > 0 ==> record.previous_hash == records[i - 1].hash
            &&& i == 0 ==> (before.previous_hash matches Some(hash) ==> record.previous_hash
                == hash)
        }),
{
    let records = built->Ok_0->Some_0@.records;
    law_batch_is_in_order(before, source_tip.height, max_batch_bytes);
    assert(record_is_due(before, records, source_tip.height, i));
    if i > 0 {
        assert(codec::linked(records[i - 1], records[i]));
    }
}

/// A batch is built on the builder's generation and names the tip that it was built for. It leaves
/// the builder right behind its last record, with that record's hash and tree sizes, one generation
/// on, and with exactly the blocks that lie behind the batch.
pub proof fn law_batch_moves_the_builder_on(
    before: BuilderView,
    source_tip: BlockId,
    max_batch_bytes: usize,
    built: Result<Option<WriteBatch>, IngestError>,
    after: BuilderView,
)
    requires
        builder_fits(before),
        batch_outcome(before, source_tip, max_batch_bytes, built, after),
        built matches Ok(Some(_)),
    ensures
        ({
            let batch = built->Ok_0->Some_0@;
            let count = batch.records.len();
            &&& count > 0
            &&& batch.base_generation == before.generation
            &&& batch.source_tip == source_tip
            &&& after.next_height == before.next_height + count
            &&& after.previous_hash == Some(batch.records[count - 1].hash)
            &&& after.tree_sizes == batch.records[count - 1].end_tree_sizes
            &&& after.generation == before.generation + 1
            &&& after.max_pending_bytes == before.max_pending_bytes
            &&& forall|height: u32|
                (#[trigger] after.pending.dom().contains(height) <==> before.pending.dom().contains(
                    height,
                ) && height >= before.next_height + count) && (after.pending.dom().contains(height)
                    ==> after.pending[height] == before.pending[height])
        }),
{
    law_batch_is_in_order(before, source_tip.height, max_batch_bytes);
}

proof fn lemma_gather_ends(
    builder: BuilderView,
    records: Seq<RecordView>,
    source_height: u32,
    max_batch_bytes: usize,
)
    requires
        builder.pending.dom().finite(),
    ensures
        ({
            let all = gather(
                builder,
                records,
                records_len(records),
                source_height,
                max_batch_bytes,
            );
            let step = build_step(
                all.builder,
                all.records.len(),
                records_len(all.records),
                source_height,
                max_batch_bytes,
            );
            &&& all.records.len() >= records.len()
            &&& match all.failure {
                None => step == BuildStep::Stop,
                Some(error) => step == BuildStep::Fail(error),
            }
        }),
    decreases builder.pending.dom().len(),
{
    if let BuildStep::Take(record) = build_step(
        builder,
        records.len(),
        records_len(records),
        source_height,
        max_batch_bytes,
    ) {
        assert(records.push(record).drop_last() =~= records);
        lemma_gather_ends(
            without_record(builder, record),
            records.push(record),
            source_height,
            max_batch_bytes,
        );
    }
}

/// A batch ends only where the next block has not come, lies less than ten below the tip, or does
/// not fit the batch any more; and nothing is built only where the next block has not come or is
/// not deep enough, which leaves the builder as it is.
pub proof fn law_batch_takes_all_that_is_due(
    before: BuilderView,
    source_tip: BlockId,
    max_batch_bytes: usize,
    built: Result<Option<WriteBatch>, IngestError>,
    after: BuilderView,
)
    requires
        builder_fits(before),
        batch_outcome(before, source_tip, max_batch_bytes, built, after),
        built is Ok,
    ensures
        ({
            let next = after.next_height;
            let block = after.pending[next];
            let waits = after.pending.dom().contains(next) && next + 10 <= source_tip.height;
            match built->Ok_0 {
                None => !waits && after == before,
                Some(batch) => {
                    &&& records_len(batch@.records) <= max_batch_bytes
                    &&& waits ==> records_len(batch@.records) + codec::record_len(
                        block.header.len(),
                        block.transactions,
                    ) > max_batch_bytes
                },
            }
        }),
{
    let all = gathered(before, source_tip.height, max_batch_bytes);
    law_batch_is_in_order(before, source_tip.height, max_batch_bytes);
    lemma_gather_ends(before, Seq::empty(), source_tip.height, max_batch_bytes);
}

/// A batch fails only for the block that would be next, which has come and is deep enough: it alone
/// is longer than a batch may be, its parent is not the block before it, or one of the three trees
/// would have more leaves than 32 bits count. Otherwise only a number is at its end.
pub proof fn law_failed_batch_names_the_next_block(
    before: BuilderView,
    source_tip: BlockId,
    max_batch_bytes: usize,
    built: Result<Option<WriteBatch>, IngestError>,
    after: BuilderView,
)
    requires
        builder_fits(before),
        batch_outcome(before, source_tip, max_batch_bytes, built, after),
        built is Err,
        before.generation < u64::MAX,
    ensures
        ({
            let next = after.next_height;
            let block = after.pending[next];
            let len = codec::record_len(block.header.len(), block.transactions);
            &&& after.pending.dom().contains(next)
            &&& next + 10 <= source_tip.height
            &&& match built->Err_0 {
                IngestError::Overflow => len + max_batch_bytes > usize::MAX,
                IngestError::BatchBytes { limit } => limit == max_batch_bytes && len
                    > max_batch_bytes && next == before.next_height,
                IngestError::Parent { height } => height == next && (after.previous_hash matches Some(
                    hash,
                ) && hash != block.previous_hash),
                IngestError::TreeSize { height } => height == next && (after.tree_sizes.sapling
                    + block.sapling_additions > 4_294_967_295 || after.tree_sizes.orchard
                    + block.orchard_additions > 4_294_967_295 || after.tree_sizes.ironwood
                    + block.ironwood_additions > 4_294_967_295),
                _ => false,
            }
        }),
{
    let all = gathered(before, source_tip.height, max_batch_bytes);
    law_batch_is_in_order(before, source_tip.height, max_batch_bytes);
    lemma_gather_ends(before, Seq::empty(), source_tip.height, max_batch_bytes);
}

/// A block that waits at the builder's place, deep enough, short enough for a batch, on top of the
/// block before it, and within the trees, is taken: the builder moves past it.
pub proof fn law_due_block_is_taken(
    before: BuilderView,
    source_tip: BlockId,
    max_batch_bytes: usize,
    built: Result<Option<WriteBatch>, IngestError>,
    after: BuilderView,
)
    requires
        builder_fits(before),
        batch_outcome(before, source_tip, max_batch_bytes, built, after),
        before.pending.dom().contains(before.next_height),
        before.next_height + 10 <= source_tip.height,
        ({
            let block = before.pending[before.next_height];
            &&& codec::record_len(block.header.len(), block.transactions) <= max_batch_bytes
            &&& before.previous_hash matches Some(hash) ==> hash == block.previous_hash
            &&& before.tree_sizes.sapling + block.sapling_additions <= 4_294_967_295
            &&& before.tree_sizes.orchard + block.orchard_additions <= 4_294_967_295
            &&& before.tree_sizes.ironwood + block.ironwood_additions <= 4_294_967_295
        }),
    ensures
        after.next_height > before.next_height,
        built != Ok::<Option<WriteBatch>, IngestError>(None),
        !after.pending.dom().contains(before.next_height),
{
    let all = gathered(before, source_tip.height, max_batch_bytes);
    law_batch_is_in_order(before, source_tip.height, max_batch_bytes);
    let step = build_step(before, 0, 0, source_tip.height, max_batch_bytes);
    let record = step->Take_0;
    lemma_gather_grows(
        without_record(before, record),
        Seq::<RecordView>::empty().push(record),
        block_len(before.pending[before.next_height]),
        source_tip.height,
        max_batch_bytes,
    );
}

/// A batch's records take together what each of them takes alone.
pub proof fn law_batch_bytes_add_up(records: Seq<RecordView>, record: RecordView)
    ensures
        records_len(Seq::empty()) == 0,
        records_len(records.push(record)) == records_len(records) + codec::record_len(
            record.header.len(),
            record.transactions,
        ),
{
    assert(records.push(record).drop_last() =~= records);
}

/// The sum of a list of numbers.
pub open spec fn sum_of(numbers: Seq<int>) -> int
    decreases numbers.len(),
{
    if numbers.len() == 0 {
        0
    } else {
        sum_of(numbers.drop_last()) + numbers.last()
    }
}

proof fn lemma_totals_are_sums(transactions: Seq<parser::TransactionView>)
    ensures
        parser::sapling_total(transactions) == sum_of(
            Seq::new(transactions.len(), |j: int| transactions[j].sapling_outputs.len() as int),
        ),
        parser::orchard_total(transactions) == sum_of(
            Seq::new(transactions.len(), |j: int| transactions[j].orchard_actions.len() as int),
        ),
        parser::ironwood_total(transactions) == sum_of(
            Seq::new(transactions.len(), |j: int| transactions[j].ironwood_actions.len() as int),
        ),
    decreases transactions.len(),
{
    if transactions.len() > 0 {
        let fewer = transactions.drop_last();
        lemma_totals_are_sums(fewer);
        assert(Seq::new(
            transactions.len(),
            |j: int| transactions[j].sapling_outputs.len() as int,
        ).drop_last() =~= Seq::new(fewer.len(), |j: int| fewer[j].sapling_outputs.len() as int));
        assert(Seq::new(
            transactions.len(),
            |j: int| transactions[j].orchard_actions.len() as int,
        ).drop_last() =~= Seq::new(fewer.len(), |j: int| fewer[j].orchard_actions.len() as int));
        assert(Seq::new(
            transactions.len(),
            |j: int| transactions[j].ironwood_actions.len() as int,
        ).drop_last() =~= Seq::new(fewer.len(), |j: int| fewer[j].ironwood_actions.len() as int));
    }
}

/// Where a record of a batch is that of a parsed block, each pool's tree grows over the record by
/// the number of that pool's commitments in the record's own transactions, and by nothing else.
pub proof fn law_trees_grow_by_the_records_commitments(
    before: BuilderView,
    source_tip: BlockId,
    max_batch_bytes: usize,
    built: Result<Option<WriteBatch>, IngestError>,
    after: BuilderView,
    i: int,
    raw: parser::RawIndexBlock,
)
    requires
        builder_fits(before),
        batch_outcome(before, source_tip, max_batch_bytes, built, after),
        built matches Ok(Some(batch)) && 0 <= i < batch@.records.len(),
        parser::read_block(raw) == Ok::<PreparedView, parser::CompactParseError>(
            before.pending[(before.next_height + i) as u32],
        ),
    ensures
        ({
            let records = built->Ok_0->Some_0@.records;
            let transactions = records[i].transactions;
            let end = records[i].end_tree_sizes;
            let start = if i == 0 {
                before.tree_sizes
            } else {
                records[i - 1].end_tree_sizes
            };
            &&& end.sapling - start.sapling == sum_of(
                Seq::new(transactions.len(), |j: int| transactions[j].sapling_outputs.len() as int),
            )
            &&& end.orchard - start.orchard == sum_of(
                Seq::new(transactions.len(), |j: int| transactions[j].orchard_actions.len() as int),
            )
            &&& end.ironwood - start.ironwood == sum_of(
                Seq::new(
                    transactions.len(),
                    |j: int| transactions[j].ironwood_actions.len() as int,
                ),
            )
        }),
{
    law_batch_holds_the_waiting_blocks(before, source_tip, max_batch_bytes, built, after, i);
    parser::law_block_additions(raw);
    lemma_totals_are_sums(built->Ok_0->Some_0@.records[i].transactions);
}

/// The block that waits `i` heights behind a builder's place.
pub open spec fn waiting_block(builder: BuilderView, i: int) -> PreparedView {
    builder.pending[(builder.next_height + i) as u32]
}

proof fn lemma_sizes_telescope(
    before: BuilderView,
    source_tip: BlockId,
    max_batch_bytes: usize,
    built: Result<Option<WriteBatch>, IngestError>,
    after: BuilderView,
    count: nat,
)
    requires
        builder_fits(before),
        batch_outcome(before, source_tip, max_batch_bytes, built, after),
        built matches Ok(Some(batch)) && 0 < count <= batch@.records.len(),
    ensures
        ({
            let end = built->Ok_0->Some_0@.records[count - 1].end_tree_sizes;
            &&& end.sapling - before.tree_sizes.sapling == sum_of(
                Seq::new(count, |i: int| waiting_block(before, i).sapling_additions as int),
            )
            &&& end.orchard - before.tree_sizes.orchard == sum_of(
                Seq::new(count, |i: int| waiting_block(before, i).orchard_additions as int),
            )
            &&& end.ironwood - before.tree_sizes.ironwood == sum_of(
                Seq::new(count, |i: int| waiting_block(before, i).ironwood_additions as int),
            )
        }),
    decreases count,
{
    let fewer = (count - 1) as nat;
    reveal_with_fuel(sum_of, 2);
    law_batch_holds_the_waiting_blocks(
        before,
        source_tip,
        max_batch_bytes,
        built,
        after,
        count - 1,
    );
    let sapling = Seq::new(count, |i: int| waiting_block(before, i).sapling_additions as int);
    let orchard = Seq::new(count, |i: int| waiting_block(before, i).orchard_additions as int);
    let ironwood = Seq::new(count, |i: int| waiting_block(before, i).ironwood_additions as int);
    assert(sapling.drop_last() =~= Seq::new(fewer, |i: int| waiting_block(before, i).sapling_additions as int));
    assert(orchard.drop_last() =~= Seq::new(fewer, |i: int| waiting_block(before, i).orchard_additions as int));
    assert(ironwood.drop_last() =~= Seq::new(fewer, |i: int| waiting_block(before, i).ironwood_additions as int));
    if fewer > 0 {
        lemma_sizes_telescope(before, source_tip, max_batch_bytes, built, after, fewer);
    }
}

/// Over a whole batch, each pool's tree grows by the sum of that pool's own additions over the
/// blocks of the batch.
pub proof fn law_batch_adds_up_each_pool(
    before: BuilderView,
    source_tip: BlockId,
    max_batch_bytes: usize,
    built: Result<Option<WriteBatch>, IngestError>,
    after: BuilderView,
)
    requires
        builder_fits(before),
        batch_outcome(before, source_tip, max_batch_bytes, built, after),
        built matches Ok(Some(_)),
    ensures
        ({
            let count = built->Ok_0->Some_0@.records.len();
            &&& after.tree_sizes.sapling - before.tree_sizes.sapling == sum_of(
                Seq::new(count, |i: int| waiting_block(before, i).sapling_additions as int),
            )
            &&& after.tree_sizes.orchard - before.tree_sizes.orchard == sum_of(
                Seq::new(count, |i: int| waiting_block(before, i).orchard_additions as int),
            )
            &&& after.tree_sizes.ironwood - before.tree_sizes.ironwood == sum_of(
                Seq::new(count, |i: int| waiting_block(before, i).ironwood_additions as int),
            )
        }),
{
    law_batch_moves_the_builder_on(before, source_tip, max_batch_bytes, built, after);
    lemma_sizes_telescope(
        before,
        source_tip,
        max_batch_bytes,
        built,
        after,
        built->Ok_0->Some_0@.records.len(),
    );
}

} // verus!
