//! Ranges of blocks read from a chain database, as many blocks as fit into a number of bytes.
use vstd::prelude::*;
use zakura_chain::block::Header;

use crate::chain;
use crate::chain::{StoredHeader, StoredTransaction};
use crate::index::BlockId;
use crate::indexer::pipeline;
use crate::indexer::pipeline::{
    PipelineError, RawBlockView, RawIndexBlock, SourceRange, TransactionLocation,
};
use crate::indexer::stream;
use crate::indexer::stream::MAX_MESSAGE_ITEMS;
use crate::parser;
use crate::pipeline::SourceRequest;

verus! {

// ---------------------------------------------------------------------------
// Headers
// ---------------------------------------------------------------------------

/// The last height of `count` blocks from `start` on that a chain of this tip has, if it has any.
pub open spec fn last_of_range(start: u32, count: u32, tip: Option<u32>) -> Option<u32> {
    match tip {
        None => None,
        Some(tip) => if count == 0 || start + count - 1 > u32::MAX || start > tip {
            None
        } else if start + count - 1 < tip {
            Some((start + count - 1) as u32)
        } else {
            Some(tip)
        },
    }
}

/// The last height to read of `count` blocks from `start` on, if there is any.
pub fn range_end(start: u32, count: u32, tip: Option<u32>) -> (end: Option<u32>)
    ensures
        end == last_of_range(start, count, tip),
{
    let offset: u32 = match count.checked_sub(1) {
        Some(offset) => offset,
        None => return None,
    };
    let last: u32 = match start.checked_add(offset) {
        Some(last) => last,
        None => return None,
    };
    let tip: u32 = match tip {
        Some(tip) => tip,
        None => return None,
    };
    let end: u32 = if last < tip {
        last
    } else {
        tip
    };
    if start <= end {
        Some(end)
    } else {
        None
    }
}

/// The headers of a range, which runs from the first to the second of `bounds`.
#[verifier::ext_equal]
pub struct RangeHeadersView {
    pub bounds: Option<(u32, u32)>,
    pub headers: Seq<Header>,
}

/// The heights of a range, first to last.
pub open spec fn bounds_len(bounds: Option<(u32, u32)>) -> int {
    match bounds {
        None => 0,
        Some((start, end)) => end - start + 1,
    }
}

/// Collects the headers of a range.
#[derive(Debug)]
pub struct RangeHeaders {
    bounds: Option<(u32, u32)>,
    headers: Vec<StoredHeader>,
}

pub open spec fn headers_view(headers: Seq<StoredHeader>) -> Seq<Header> {
    Seq::new(headers.len(), |i: int| headers[i]@)
}

impl View for RangeHeaders {
    type V = RangeHeadersView;

    closed spec fn view(&self) -> RangeHeadersView {
        RangeHeadersView { bounds: self.bounds, headers: headers_view(self.headers@) }
    }
}

impl RangeHeaders {
    /// What holds of every collection of headers.
    pub open spec fn wf(&self) -> bool {
        &&& self@.bounds matches Some((start, end)) ==> start <= end
        &&& self@.headers.len() <= bounds_len(self@.bounds)
    }

    /// All headers of the range have come.
    pub open spec fn is_complete(&self) -> bool {
        self@.headers.len() == bounds_len(self@.bounds)
    }

    /// The range that a request asks for, of a chain of this tip.
    pub fn new(request: SourceRequest, tip: Option<u32>) -> (headers: Self)
        ensures
            headers.wf(),
            headers@.headers.len() == 0,
            headers@.bounds == (match last_of_range(request.start, request.count, tip) {
                None => None,
                Some(end) => Some((request.start, end)),
            }),
    {
        let bounds: Option<(u32, u32)> = match range_end(request.start, request.count, tip) {
            None => None,
            Some(end) => Some((request.start, end)),
        };
        RangeHeaders { bounds, headers: Vec::new() }
    }

    /// The heights at which the range begins and ends, if there is any.
    pub fn bounds(&self) -> (bounds: Option<(u32, u32)>)
        ensures
            bounds == self@.bounds,
    {
        self.bounds
    }

    /// The height of the header to read next, if one is left.
    pub fn next_height(&self) -> (height: Option<u32>)
        requires
            self.wf(),
        ensures
            match height {
                None => self.is_complete(),
                Some(height) => !self.is_complete() && (self@.bounds matches Some((start, _))
                    && height == start + self@.headers.len()),
            },
    {
        match self.bounds {
            None => None,
            Some((start, end)) => if self.headers.len() <= (end - start) as usize {
                Some(start + self.headers.len() as u32)
            } else {
                None
            },
        }
    }

    /// Takes the next header, which the database must have.
    pub fn push(&mut self, header: Option<StoredHeader>) -> (pushed: Result<(), PipelineError>)
        requires
            old(self).wf(),
            !old(self).is_complete(),
        ensures
            final(self).wf(),
            match header {
                None => pushed == Err::<(), PipelineError>(
                    PipelineError::SourceGap {
                        expected: (old(self)@.bounds->Some_0.0 + old(self)@.headers.len()) as u32,
                        actual: None,
                    },
                ) && final(self)@ == old(self)@,
                Some(header) => pushed == Ok::<(), PipelineError>(()) && final(self)@ == (
                RangeHeadersView { headers: old(self)@.headers.push(header@), ..old(self)@ }),
            },
    {
        match header {
            None => {
                let start: u32 = match self.bounds {
                    None => 0,
                    Some((start, _)) => start,
                };
                Err(
                    PipelineError::SourceGap {
                        expected: start + self.headers.len() as u32,
                        actual: None,
                    },
                )
            },
            Some(header) => {
                self.headers.push(header);
                assert(self@.headers =~= old(self)@.headers.push(header@));
                Ok(())
            },
        }
    }
}

// ---------------------------------------------------------------------------
// Blocks
// ---------------------------------------------------------------------------

/// A transaction with its place.
#[derive(Debug)]
pub struct StoredRow {
    pub location: TransactionLocation,
    pub transaction: StoredTransaction,
}

/// The transactions of rows as bytes.
pub open spec fn row_bodies(rows: Seq<StoredRow>) -> Seq<Seq<u8>> {
    Seq::new(rows.len(), |i: int| chain::transaction_bytes(rows[i].transaction@))
}

/// The identifiers of the transactions of rows.
pub open spec fn row_ids(rows: Seq<StoredRow>) -> Seq<Seq<u8>> {
    Seq::new(rows.len(), |i: int| chain::transaction_id(rows[i].transaction@))
}

/// The block of a header and its transactions.
pub open spec fn range_block_of(height: u32, header: Header, rows: Seq<StoredRow>) -> RawBlockView {
    RawBlockView {
        height,
        hash: chain::header_hash(chain::header_bytes(header)),
        bytes: stream::block_bytes(chain::header_bytes(header), row_bodies(rows)),
        txids: row_ids(rows),
    }
}

/// The block of a header and its transactions, those from row `from` to row `to`.
pub fn range_block(
    height: u32,
    header: &StoredHeader,
    rows: &Vec<StoredRow>,
    from: usize,
    to: usize,
) -> (block: RawIndexBlock)
    requires
        from <= to <= rows@.len(),
        to - from <= MAX_MESSAGE_ITEMS,
    ensures
        block@ == range_block_of(height, header@, rows@.subrange(from as int, to as int)),
{
    let ghost mine = rows@.subrange(from as int, to as int);
    let row = stream::header_row(height, header);
    let mut bodies: Vec<Vec<u8>> = Vec::with_capacity(to - from);
    let mut txids: Vec<[u8; 32]> = Vec::with_capacity(to - from);
    let mut i: usize = from;
    while i < to
        invariant
            from <= i <= to <= rows@.len(),
            mine == rows@.subrange(from as int, to as int),
            bodies@.len() == i - from,
            txids@.len() == i - from,
            forall|j: int|
                0 <= j < i - from ==> (#[trigger] bodies@[j])@ == chain::transaction_bytes(
                    mine[j].transaction@,
                ),
            forall|j: int|
                0 <= j < i - from ==> (#[trigger] txids@[j])@ == chain::transaction_id(
                    mine[j].transaction@,
                ),
        decreases to - i,
    {
        assert(mine[i - from] == rows@[i as int]);
        bodies.push(rows[i].transaction.bytes());
        txids.push(rows[i].transaction.id());
        i = i + 1;
    }
    assert(stream::bodies_view(bodies@) =~= row_bodies(mine));
    assert(parser::hashes_view(txids@) =~= row_ids(mine));
    let count = stream::item_count_bytes(bodies.len());
    let bytes = stream::put_block(row.bytes.as_slice(), count.as_slice(), &bodies, row.bytes.len());
    RawIndexBlock { height, hash: row.hash, bytes, txids }
}

/// Whether a block of `bytes` bytes joins those read so far; where the first block does not fit,
/// that is an error.
pub open spec fn range_step(
    height: u32,
    taken: nat,
    read: nat,
    bytes: nat,
    txids: nat,
    max_bytes: usize,
) -> Result<Option<nat>, PipelineError> {
    let sum = read + stream::counted_len(bytes, txids);
    if sum > usize::MAX {
        Err(PipelineError::SourceSize { height })
    } else if sum <= max_bytes {
        Ok(Some(sum))
    } else if taken == 0 {
        Err(
            PipelineError::BlockExceedsByteLimit {
                height,
                required: stream::counted_len(bytes, txids) as usize,
                limit: max_bytes,
            },
        )
    } else {
        Ok(None)
    }
}

/// Decides whether a block joins the `taken` blocks of `read` bytes: the bytes with it, or that the
/// range ends before it.
fn extend_range(
    height: u32,
    taken: usize,
    read: usize,
    bytes: usize,
    txids: usize,
    max_bytes: usize,
) -> (extended: Result<Option<usize>, PipelineError>)
    ensures
        match (
            range_step(height, taken as nat, read as nat, bytes as nat, txids as nat, max_bytes),
            extended,
        ) {
            (Err(error), Err(actual)) => actual == error,
            (Ok(None), Ok(None)) => true,
            (Ok(Some(sum)), Ok(Some(actual))) => actual == sum,
            _ => false,
        },
{
    let block_bytes: usize = match stream::checked_counted_len(bytes, txids) {
        Some(block_bytes) => block_bytes,
        None => return Err(PipelineError::SourceSize { height }),
    };
    let sum: usize = match read.checked_add(block_bytes) {
        Some(sum) => sum,
        None => return Err(PipelineError::SourceSize { height }),
    };
    if sum > max_bytes {
        if taken == 0 {
            return Err(
                PipelineError::BlockExceedsByteLimit {
                    height,
                    required: block_bytes,
                    limit: max_bytes,
                },
            );
        }
        return Ok(None);
    }
    Ok(Some(sum))
}

/// What blocks count for together.
pub open spec fn counted_sum(blocks: Seq<RawBlockView>) -> nat
    decreases blocks.len(),
{
    if blocks.len() == 0 {
        0
    } else {
        counted_sum(blocks.drop_last()) + stream::counted_len(
            blocks.last().bytes.len(),
            blocks.last().txids.len(),
        )
    }
}

/// Blocks have the heights from `start` on, one after the other, up to `end` at most.
pub open spec fn is_run(blocks: Seq<RawBlockView>, start: u32, end: u32) -> bool {
    &&& blocks.len() <= end - start + 1
    &&& forall|i: int| 0 <= i < blocks.len() ==> (#[trigger] blocks[i]).height == start + i
}

/// Collects the blocks of a range, as many as fit into a number of bytes.
#[derive(Debug)]
pub struct RangeReader {
    start: u32,
    end: u32,
    blocks: Vec<RawIndexBlock>,
    read: usize,
    max_bytes: usize,
}

impl View for RangeReader {
    type V = Seq<RawBlockView>;

    /// The blocks so far.
    closed spec fn view(&self) -> Seq<RawBlockView> {
        pipeline::blocks_view(self.blocks@)
    }
}

impl RangeReader {
    /// The height at which the range begins.
    pub closed spec fn first(&self) -> u32 {
        self.start
    }

    /// The height at which the range ends.
    pub closed spec fn last(&self) -> u32 {
        self.end
    }

    /// The bytes that the blocks may count for.
    pub closed spec fn limit(&self) -> usize {
        self.max_bytes
    }

    /// The blocks have the range's heights in order, and count for no more than the limit.
    pub closed spec fn wf(&self) -> bool {
        &&& self.start <= self.end
        &&& is_run(self@, self.start, self.end)
        &&& self.read == counted_sum(self@)
        &&& self.read <= self.max_bytes
    }

    pub fn new(start: u32, end: u32, max_bytes: usize) -> (reader: Self)
        requires
            start <= end,
        ensures
            reader.wf(),
            reader@ == Seq::<RawBlockView>::empty(),
            reader.first() == start,
            reader.last() == end,
            reader.limit() == max_bytes,
    {
        let reader = RangeReader { start, end, blocks: Vec::new(), read: 0, max_bytes };
        assert(reader@ =~= Seq::<RawBlockView>::empty());
        reader
    }

    /// The height of the next block, if one is left.
    pub fn next_height(&self) -> (height: Option<u32>)
        requires
            self.wf(),
        ensures
            is_run(self@, self.first(), self.last()),
            match height {
                None => self@.len() == self.last() - self.first() + 1,
                Some(height) => height == self.first() + self@.len() && height <= self.last(),
            },
    {
        if self.blocks.len() <= (self.end - self.start) as usize {
            Some(self.start + self.blocks.len() as u32)
        } else {
            None
        }
    }

    /// Takes the next block: whether it fits, and the range goes on.
    pub fn push(&mut self, block: RawIndexBlock) -> (pushed: Result<bool, PipelineError>)
        requires
            old(self).wf(),
            block.height == old(self).first() + old(self)@.len(),
            block.height <= old(self).last(),
        ensures
            final(self).wf(),
            is_run(final(self)@, final(self).first(), final(self).last()),
            final(self).first() == old(self).first(),
            final(self).last() == old(self).last(),
            final(self).limit() == old(self).limit(),
            if block@.txids.len() == 0 {
                pushed == Err::<bool, PipelineError>(
                    PipelineError::MissingBody { height: block.height },
                ) && final(self)@ == old(self)@
            } else {
                match range_step(
                    block.height,
                    old(self)@.len(),
                    counted_sum(old(self)@),
                    block@.bytes.len(),
                    block@.txids.len(),
                    old(self).limit(),
                ) {
                    Err(error) => pushed == Err::<bool, PipelineError>(error) && final(self)@
                        == old(self)@,
                    Ok(None) => pushed == Ok::<bool, PipelineError>(false) && final(self)@
                        == old(self)@,
                    Ok(Some(_)) => pushed == Ok::<bool, PipelineError>(true) && final(self)@
                        == old(self)@.push(block@),
                }
            },
    {
        if block.txids.len() == 0 {
            return Err(PipelineError::MissingBody { height: block.height });
        }
        let extended: Option<usize> = extend_range(
            block.height,
            self.blocks.len(),
            self.read,
            block.bytes.len(),
            block.txids.len(),
            self.max_bytes,
        )?;
        match extended {
            None => Ok(false),
            Some(read) => {
                let ghost before = self@;
                let ghost taken = block@;
                self.blocks.push(block);
                self.read = read;
                proof {
                    assert(self@ =~= before.push(taken));
                    assert(before.push(taken).drop_last() =~= before);
                }
                Ok(true)
            },
        }
    }

    /// The blocks that were read.
    pub fn finish(self) -> (blocks: Vec<RawIndexBlock>)
        requires
            self.wf(),
        ensures
            pipeline::blocks_view(blocks@) == self@,
            is_run(self@, self.first(), self.last()),
            counted_sum(self@) <= self.limit(),
    {
        self.blocks
    }
}

// ---------------------------------------------------------------------------
// Ranges
// ---------------------------------------------------------------------------

/// How many of the rows from row `from` on are at `height`, before the first that is not.
pub open spec fn group_len(rows: Seq<StoredRow>, from: int, height: u32) -> nat
    decreases rows.len() - from,
{
    if 0 <= from < rows.len() && rows[from].location.height == height {
        1 + group_len(rows, from + 1, height)
    } else {
        0
    }
}

/// No block has more transactions than a message can list.
pub open spec fn groups_fit(rows: Seq<StoredRow>) -> bool {
    forall|from: int, height: u32| #[trigger] group_len(rows, from, height) <= MAX_MESSAGE_ITEMS
}

/// The blocks of a range, by its headers and rows, once `blocks` have been read and the rows before
/// row `at` have been used: as many as fit, each with the rows at its height.
pub open spec fn range_from(
    headers: Seq<Header>,
    start: u32,
    rows: Seq<StoredRow>,
    max_bytes: usize,
    blocks: Seq<RawBlockView>,
    at: int,
) -> Result<Seq<RawBlockView>, PipelineError>
    decreases headers.len() - blocks.len(),
{
    let height = (start + blocks.len()) as u32;
    let count = group_len(rows, at, height);
    let next = range_block_of(
        height,
        headers[blocks.len() as int],
        rows.subrange(at, at + count),
    );
    if blocks.len() >= headers.len() {
        Ok(blocks)
    } else if count == 0 {
        Err(PipelineError::MissingBody { height })
    } else {
        match range_step(
            height,
            blocks.len(),
            counted_sum(blocks),
            next.bytes.len(),
            count,
            max_bytes,
        ) {
            Err(error) => Err(error),
            Ok(None) => Ok(blocks),
            Ok(Some(_)) => range_from(
                headers,
                start,
                rows,
                max_bytes,
                blocks.push(next),
                at + count,
            ),
        }
    }
}

proof fn lemma_group_len(rows: Seq<StoredRow>, from: int, height: u32)
    requires
        0 <= from <= rows.len(),
    ensures
        from + group_len(rows, from, height) <= rows.len(),
    decreases rows.len() - from,
{
    if from < rows.len() && rows[from].location.height == height {
        lemma_group_len(rows, from + 1, height);
    }
}

/// Where the rows from row `from` on that are at `height` end.
fn group_end(rows: &Vec<StoredRow>, from: usize, height: u32) -> (to: usize)
    requires
        from <= rows@.len(),
    ensures
        to == from + group_len(rows@, from as int, height),
        to <= rows@.len(),
{
    let mut to: usize = from;
    while to < rows.len() && rows[to].location.height == height
        invariant
            from <= to <= rows@.len(),
            from + group_len(rows@, from as int, height) == to + group_len(
                rows@,
                to as int,
                height,
            ),
        decreases rows@.len() - to,
    {
        to = to + 1;
    }
    to
}

/// The range that the headers and the rows of its transactions make, with where the database's
/// bodies begin and where its chain ends.
pub fn read_range(
    headers: RangeHeaders,
    rows: &Vec<StoredRow>,
    max_bytes: usize,
    retained_body_floor: u32,
    source_tip: Option<BlockId>,
) -> (range: Result<SourceRange, PipelineError>)
    requires
        headers.wf(),
        headers.is_complete(),
        groups_fit(rows@),
    ensures
        ({
            let blocks = match headers@.bounds {
                None => Ok(Seq::empty()),
                Some((start, _)) => range_from(
                    headers@.headers,
                    start,
                    rows@,
                    max_bytes,
                    Seq::empty(),
                    0,
                ),
            };
            match (blocks, range) {
                (Err(error), Err(actual)) => actual == error,
                (Ok(blocks), Ok(range)) => pipeline::blocks_view(range.blocks@) == blocks
                    && range.retained_body_floor == retained_body_floor && range.source_tip
                    == source_tip,
                _ => false,
            }
        }),
{
    let ghost views = headers@.headers;
    let (start, end): (u32, u32) = match headers.bounds {
        None => {
            let blocks: Vec<RawIndexBlock> = Vec::new();
            assert(pipeline::blocks_view(blocks@) =~= Seq::empty());
            return Ok(SourceRange { blocks, retained_body_floor, source_tip });
        },
        Some(bounds) => bounds,
    };
    let mut reader = RangeReader::new(start, end, max_bytes);
    let mut at: usize = 0;
    let mut open: bool = true;
    while open && reader.blocks.len() < headers.headers.len()
        invariant
            views == headers@.headers,
            headers@.bounds == Some((start, end)),
            views.len() == end - start + 1,
            groups_fit(rows@),
            reader.wf(),
            reader.first() == start,
            reader.last() == end,
            reader.limit() == max_bytes,
            at <= rows@.len(),
            range_from(views, start, rows@, max_bytes, Seq::empty(), 0) == (if open {
                range_from(views, start, rows@, max_bytes, reader@, at as int)
            } else {
                Ok(reader@)
            }),
        decreases (if open { 1int } else { 0 }) + views.len() - reader@.len(),
    {
        let ghost before = reader@;
        let index: usize = reader.blocks.len();
        let height: u32 = start + index as u32;
        let to: usize = group_end(rows, at, height);
        proof {
            assert(group_len(rows@, at as int, height) <= MAX_MESSAGE_ITEMS);
        }
        if to == at {
            return Err(PipelineError::MissingBody { height });
        }
        let next = range_block(height, &headers.headers[index], rows, at, to);
        let taken: bool = reader.push(next)?;
        if taken {
            at = to;
        } else {
            open = false;
        }
    }
    Ok(SourceRange { blocks: reader.finish(), retained_body_floor, source_tip })
}

/// Number of rows that blocks have used.
pub open spec fn rows_used(blocks: Seq<RawBlockView>) -> nat
    decreases blocks.len(),
{
    if blocks.len() == 0 {
        0
    } else {
        rows_used(blocks.drop_last()) + blocks.last().txids.len()
    }
}

/// Blocks are those of the headers from the first on, each with transactions, and within the limit.
pub open spec fn is_range(
    headers: Seq<Header>,
    start: u32,
    max_bytes: usize,
    blocks: Seq<RawBlockView>,
) -> bool {
    &&& blocks.len() <= headers.len()
    &&& counted_sum(blocks) <= max_bytes
    &&& forall|i: int|
        0 <= i < blocks.len() ==> (#[trigger] blocks[i]).height == start + i && blocks[i].hash
            == chain::header_hash(chain::header_bytes(headers[i])) && blocks[i].txids.len() > 0
}

/// The block that a range goes on with behind `blocks`.
pub open spec fn block_behind(
    headers: Seq<Header>,
    start: u32,
    rows: Seq<StoredRow>,
    blocks: Seq<RawBlockView>,
) -> RawBlockView {
    let height = (start + blocks.len()) as u32;
    let at = rows_used(blocks) as int;
    range_block_of(
        height,
        headers[blocks.len() as int],
        rows.subrange(at, at + group_len(rows, at, height)),
    )
}

proof fn lemma_range_from(
    headers: Seq<Header>,
    start: u32,
    rows: Seq<StoredRow>,
    max_bytes: usize,
    blocks: Seq<RawBlockView>,
)
    requires
        start + headers.len() <= u32::MAX + 1,
        is_range(headers, start, max_bytes, blocks),
        rows_used(blocks) <= rows.len(),
    ensures
        range_from(headers, start, rows, max_bytes, blocks, rows_used(blocks) as int) matches Ok(
            read,
        ) ==> {
            &&& is_range(headers, start, max_bytes, read)
            &&& read.len() >= blocks.len()
            &&& headers.len() > 0 ==> read.len() > 0
            &&& read.len() < headers.len() ==> ({
                let next = block_behind(headers, start, rows, read);
                counted_sum(read) + stream::counted_len(next.bytes.len(), next.txids.len())
                    > max_bytes
            })
        },
    decreases headers.len() - blocks.len(),
{
    let at = rows_used(blocks) as int;
    let height = (start + blocks.len()) as u32;
    let next = block_behind(headers, start, rows, blocks);
    if blocks.len() < headers.len() {
        lemma_group_len(rows, at, height);
        let longer = blocks.push(next);
        assert(longer.drop_last() =~= blocks);
        if group_len(rows, at, height) > 0 && range_step(
            height,
            blocks.len(),
            counted_sum(blocks),
            next.bytes.len(),
            group_len(rows, at, height),
            max_bytes,
        ) matches Ok(Some(_)) {
            assert forall|i: int| 0 <= i < longer.len() implies (#[trigger] longer[i]).height
                == start + i && longer[i].hash == chain::header_hash(
                chain::header_bytes(headers[i]),
            ) && longer[i].txids.len() > 0 by {
                if i < blocks.len() {
                    assert(longer[i] == blocks[i]);
                }
            }
            lemma_range_from(headers, start, rows, max_bytes, longer);
        }
    }
}

/// A range that is read holds the heights from its first on, without a gap, each block with the
/// hash of its header and with transactions; it is not empty, keeps to its bytes, and ends before
/// its last height only where the next block would not fit.
pub proof fn law_range_is_a_run(
    headers: Seq<Header>,
    start: u32,
    end: u32,
    rows: Seq<StoredRow>,
    max_bytes: usize,
)
    requires
        start <= end,
        headers.len() == end - start + 1,
    ensures
        range_from(headers, start, rows, max_bytes, Seq::empty(), 0) matches Ok(blocks) ==> {
            &&& blocks.len() > 0
            &&& is_run(blocks, start, end)
            &&& is_range(headers, start, max_bytes, blocks)
            &&& counted_sum(blocks) <= max_bytes
            &&& blocks.len() < headers.len() ==> ({
                let next = block_behind(headers, start, rows, blocks);
                counted_sum(blocks) + stream::counted_len(next.bytes.len(), next.txids.len())
                    > max_bytes
            })
        },
{
    lemma_range_from(headers, start, rows, max_bytes, Seq::empty());
}

/// A range whose first block alone does not fit is refused, with what the block would need.
pub proof fn law_oversized_block_is_refused(
    headers: Seq<Header>,
    start: u32,
    rows: Seq<StoredRow>,
    max_bytes: usize,
)
    requires
        headers.len() > 0,
        group_len(rows, 0, start) > 0,
        ({
            let first = block_behind(headers, start, rows, Seq::empty());
            max_bytes < stream::counted_len(first.bytes.len(), first.txids.len()) <= usize::MAX
        }),
    ensures
        ({
            let first = block_behind(headers, start, rows, Seq::empty());
            range_from(headers, start, rows, max_bytes, Seq::empty(), 0) == Err::<
                Seq<RawBlockView>,
                PipelineError,
            >(
                PipelineError::BlockExceedsByteLimit {
                    height: start,
                    required: stream::counted_len(
                        first.bytes.len(),
                        first.txids.len(),
                    ) as usize,
                    limit: max_bytes,
                },
            )
        }),
{
    let none = Seq::<RawBlockView>::empty();
    assert(rows_used(none) == 0);
    assert(counted_sum(none) == 0);
    lemma_group_len(rows, 0, start);
}

// ---------------------------------------------------------------------------
// Laws
// ---------------------------------------------------------------------------

/// A range ends after its count or at the chain's tip, whichever comes first; there is none where
/// nothing is asked for, where the chain ends before it, or where its last height has more than 32
/// bits.
pub proof fn law_range_ends_at_the_tip(start: u32, count: u32, tip: Option<u32>)
    ensures
        match last_of_range(start, count, tip) {
            Some(end) => tip matches Some(tip) && start <= end <= tip && end - start + 1 <= count
                && (end == tip || end - start + 1 == count) && start + count <= 0x1_0000_0000,
            None => tip is None || count == 0 || start > tip->Some_0 || start + count
                > 0x1_0000_0000,
        },
        bounds_len(None) == 0,
        bounds_len(Some((start, count))) == count - start + 1,
{
}

/// A block is made of its header and its own rows: its hash is that of the header's bytes, and
/// transaction `k` and its identifier are those of row `k`.
pub proof fn law_range_block_holds_its_rows(
    height: u32,
    header: Header,
    rows: Seq<StoredRow>,
    k: int,
)
    requires
        0 <= k < rows.len(),
    ensures
        ({
            let block = range_block_of(height, header, rows);
            let bodies = row_bodies(rows);
            let head = chain::header_bytes(header);
            &&& block.height == height
            &&& block.hash == chain::header_hash(head)
            &&& block.txids.len() == rows.len()
            &&& block.txids[k] == chain::transaction_id(rows[k].transaction@)
            &&& bodies.len() == rows.len()
            &&& bodies[k] == chain::transaction_bytes(rows[k].transaction@)
            &&& block.bytes == head + parser::compact_size_bytes(rows.len()) + bodies.flatten()
        }),
{
}

/// A block joins those before it where all of them together count for no more than the limit. The
/// first block that does not ends the range, or is refused where it is the first of all.
pub proof fn law_range_takes_what_fits(
    height: u32,
    taken: nat,
    read: nat,
    bytes: nat,
    txids: nat,
    max_bytes: usize,
)
    ensures
        ({
            let counted = bytes + 32 * txids;
            let step = range_step(height, taken, read, bytes, txids, max_bytes);
            &&& read + counted <= max_bytes ==> step == Ok::<Option<nat>, PipelineError>(
                Some((read + counted) as nat),
            )
            &&& max_bytes < read + counted <= usize::MAX && taken > 0 ==> step == Ok::<
                Option<nat>,
                PipelineError,
            >(None)
            &&& max_bytes < read + counted <= usize::MAX && taken == 0 ==> step == Err::<
                Option<nat>,
                PipelineError,
            >(
                PipelineError::BlockExceedsByteLimit {
                    height,
                    required: counted as usize,
                    limit: max_bytes,
                },
            )
            &&& read + counted > usize::MAX ==> step == Err::<Option<nat>, PipelineError>(
                PipelineError::SourceSize { height },
            )
        }),
{
}

/// What blocks count for and the rows that they have used add up: one more block adds its bytes, 32
/// for each of its transactions, and as many rows.
pub proof fn law_range_sums_add_up(blocks: Seq<RawBlockView>, block: RawBlockView)
    ensures
        counted_sum(Seq::<RawBlockView>::empty()) == 0,
        counted_sum(blocks.push(block)) == counted_sum(blocks) + block.bytes.len() + 32
            * block.txids.len(),
        rows_used(Seq::<RawBlockView>::empty()) == 0,
        rows_used(blocks.push(block)) == rows_used(blocks) + block.txids.len(),
{
    assert(blocks.push(block).drop_last() =~= blocks);
}

/// A group of rows is all rows at its height from its first on: row `i` of it is at the height, and
/// the row behind it, if there is one, is not.
pub proof fn law_group_is_one_height(rows: Seq<StoredRow>, from: int, height: u32, i: int)
    requires
        0 <= from <= rows.len(),
    ensures
        from + group_len(rows, from, height) <= rows.len(),
        from <= i < from + group_len(rows, from, height) ==> rows[i].location.height == height,
        from + group_len(rows, from, height) < rows.len() ==> rows[from + group_len(
            rows,
            from,
            height,
        )].location.height != height,
    decreases rows.len() - from,
{
    if from < rows.len() && rows[from].location.height == height {
        law_group_is_one_height(rows, from + 1, height, i);
    }
}

proof fn lemma_group_is_short(rows: Seq<StoredRow>, from: int, height: u32)
    ensures
        group_len(rows, from, height) <= rows.len(),
        0 <= from <= rows.len() ==> group_len(rows, from, height) <= rows.len() - from,
    decreases rows.len() - from,
{
    if 0 <= from < rows.len() && rows[from].location.height == height {
        lemma_group_is_short(rows, from + 1, height);
    }
}

/// As many rows as a message can list are never too many for its blocks.
pub proof fn law_short_tables_fit(rows: Seq<StoredRow>)
    requires
        rows.len() <= 2_097_152,
    ensures
        groups_fit(rows),
{
    assert forall|from: int, height: u32| #[trigger]
        group_len(rows, from, height) <= MAX_MESSAGE_ITEMS by {
        lemma_group_is_short(rows, from, height);
    }
}

/// A range is read block by block. At its next height it takes the rows there: without any the body
/// is missing; with them the block is made of the next header and just these rows, and the range
/// goes on behind both where the block fits. It ends once all headers are used.
pub proof fn law_range_goes_on_block_by_block(
    headers: Seq<Header>,
    start: u32,
    rows: Seq<StoredRow>,
    max_bytes: usize,
    blocks: Seq<RawBlockView>,
    count: nat,
)
    requires
        start + headers.len() <= 0x1_0000_0000,
        rows_used(blocks) + count <= rows.len(),
        forall|i: int|
            rows_used(blocks) <= i < rows_used(blocks) + count ==> (
            #[trigger] rows[i]).location.height == start + blocks.len(),
        rows_used(blocks) + count < rows.len() ==> rows[(rows_used(blocks)
            + count) as int].location.height != start + blocks.len(),
    ensures
        ({
            let at = rows_used(blocks) as int;
            let height = (start + blocks.len()) as u32;
            let result = range_from(headers, start, rows, max_bytes, blocks, at);
            let next = range_block_of(
                height,
                headers[blocks.len() as int],
                rows.subrange(at, at + count),
            );
            let sum = counted_sum(blocks) + next.bytes.len() + 32 * count;
            &&& blocks.len() >= headers.len() ==> result == Ok::<Seq<RawBlockView>, PipelineError>(
                blocks,
            )
            &&& blocks.len() < headers.len() && count == 0 ==> result == Err::<
                Seq<RawBlockView>,
                PipelineError,
            >(PipelineError::MissingBody { height })
            &&& blocks.len() < headers.len() && count > 0 && sum <= max_bytes ==> result
                == range_from(headers, start, rows, max_bytes, blocks.push(next), at + count)
            &&& 0 < blocks.len() < headers.len() && count > 0 && max_bytes < sum <= usize::MAX
                ==> result == Ok::<Seq<RawBlockView>, PipelineError>(blocks)
        }),
{
    if blocks.len() < headers.len() {
        lemma_group_is_counted(
            rows,
            rows_used(blocks) as int,
            (start + blocks.len()) as u32,
            count,
        );
    }
}

/// Rows at one height, up to the first that is not, are a group.
proof fn lemma_group_is_counted(rows: Seq<StoredRow>, from: int, height: u32, count: nat)
    requires
        0 <= from <= from + count <= rows.len(),
        forall|i: int|
            from <= i < from + count ==> (#[trigger] rows[i]).location.height == height,
        from + count < rows.len() ==> rows[from + count].location.height != height,
    ensures
        group_len(rows, from, height) == count,
    decreases count,
{
    if count > 0 {
        assert(rows[from].location.height == height);
        lemma_group_is_counted(rows, from + 1, height, (count - 1) as nat);
    }
}

proof fn lemma_range_rows(
    headers: Seq<Header>,
    start: u32,
    rows: Seq<StoredRow>,
    max_bytes: usize,
    blocks: Seq<RawBlockView>,
    i: int,
)
    requires
        rows_used(blocks) <= rows.len(),
        0 <= i < blocks.len() ==> blocks[i] == block_behind(headers, start, rows, blocks.take(i))
            && rows_used(blocks.take(i)) + blocks[i].txids.len() <= rows.len(),
    ensures
        range_from(headers, start, rows, max_bytes, blocks, rows_used(blocks) as int) matches Ok(
            read,
        ) ==> (0 <= i < read.len() ==> read[i] == block_behind(headers, start, rows, read.take(i))
            && rows_used(read.take(i)) + read[i].txids.len() <= rows.len()),
    decreases headers.len() - blocks.len(),
{
    let at = rows_used(blocks) as int;
    let height = (start + blocks.len()) as u32;
    let count = group_len(rows, at, height);
    let next = block_behind(headers, start, rows, blocks);
    if blocks.len() < headers.len() && count > 0 && range_step(
        height,
        blocks.len(),
        counted_sum(blocks),
        next.bytes.len(),
        count,
        max_bytes,
    ) matches Ok(Some(_)) {
        let longer = blocks.push(next);
        lemma_group_len(rows, at, height);
        assert(longer.drop_last() =~= blocks);
        if 0 <= i < longer.len() {
            assert(longer.take(i) =~= blocks.take(i));
            assert(i == blocks.len() ==> blocks.take(i) =~= blocks);
        }
        lemma_range_rows(headers, start, rows, max_bytes, longer, i);
    }
}

/// Block `i` of a range that is read has its own rows and no others: its transactions are those of
/// the rows behind what the blocks before it have used, all of them at its height, in their order.
pub proof fn law_range_blocks_hold_their_rows(
    headers: Seq<Header>,
    start: u32,
    end: u32,
    rows: Seq<StoredRow>,
    max_bytes: usize,
    i: int,
    k: int,
)
    requires
        start <= end,
        headers.len() == end - start + 1,
    ensures
        range_from(headers, start, rows, max_bytes, Seq::empty(), 0) matches Ok(blocks) ==> (0 <= i
            < blocks.len() && 0 <= k < blocks[i].txids.len() ==> {
            let first = rows_used(blocks.take(i)) as int;
            let mine = rows.subrange(first, first + blocks[i].txids.len());
            &&& first + blocks[i].txids.len() <= rows.len()
            &&& rows[first + k].location.height == start + i
            &&& blocks[i].txids[k] == chain::transaction_id(rows[first + k].transaction@)
            &&& blocks[i].bytes == stream::block_bytes(
                chain::header_bytes(headers[i]),
                row_bodies(mine),
            )
            &&& first + blocks[i].txids.len() < rows.len() ==> rows[first
                + blocks[i].txids.len()].location.height != start + i
        }),
{
    let read = range_from(headers, start, rows, max_bytes, Seq::empty(), 0);
    assert(rows_used(Seq::<RawBlockView>::empty()) == 0);
    lemma_range_rows(headers, start, rows, max_bytes, Seq::empty(), i);
    law_range_is_a_run(headers, start, end, rows, max_bytes);
    if let Ok(blocks) = read {
        if 0 <= i < blocks.len() {
            let first = rows_used(blocks.take(i)) as int;
            let height = (start + i) as u32;
            law_group_is_one_height(rows, first, height, first + k);
            let count = group_len(rows, first, height);
            assert(blocks[i].txids.len() == count);
        }
    }
}

} // verus!
