//! Blocks put together from the rows of a chain database, and streams of them.
use vstd::prelude::*;
use zakura_chain::serialization::{CompactSizeMessage, ZcashSerialize};

use crate::bytes;
use crate::chain;
use crate::chain::StoredHeader;
use crate::indexer::pipeline::{
    PipelineError, RawBlockView, RawIndexBlock, StreamEnd, StreamSegment, TransactionLocation,
};
use crate::parser;

verus! {

/// No list in a network message has more items than this.
pub const MAX_MESSAGE_ITEMS: usize = 2_097_152;

/// What a block counts for: its bytes, and its transactions' identifiers.
pub open spec fn counted_len(bytes: nat, txids: nat) -> nat {
    bytes + 32 * txids
}

/// What a block counts for, or nothing where no `usize` holds it.
pub(crate) fn checked_counted_len(bytes: usize, txids: usize) -> (len: Option<usize>)
    ensures
        match len {
            Some(len) => len == counted_len(bytes as nat, txids as nat),
            None => counted_len(bytes as nat, txids as nat) > usize::MAX,
        },
{
    let txids_len: usize = txids.checked_mul(32)?;
    bytes.checked_add(txids_len)
}

/// `CompactSizeMessage::try_from` and `zcash_serialize_to_vec` of `zakura-chain`: a number of items
/// as a CompactSize.
///
/// Claimed: up to the limit of a network message both succeed, and the bytes are those of the
/// CompactSize format, in its shortest form.
#[verifier::external_body]
pub(crate) fn item_count_bytes(count: usize) -> (bytes: Vec<u8>)
    requires
        count <= MAX_MESSAGE_ITEMS,
    ensures
        bytes@ == parser::compact_size_bytes(count as nat),
{
    CompactSizeMessage::try_from(count)
        .expect("the count is within the limit")
        .zcash_serialize_to_vec()
        .expect("a vector takes all bytes")
}

pub open spec fn bodies_view(bodies: Seq<Vec<u8>>) -> Seq<Seq<u8>> {
    Seq::new(bodies.len(), |i: int| bodies[i]@)
}

/// The bytes of a block: header, number of transactions, transactions.
pub open spec fn block_bytes(header: Seq<u8>, bodies: Seq<Seq<u8>>) -> Seq<u8> {
    header + parser::compact_size_bytes(bodies.len()) + bodies.flatten()
}

/// A row of the table of headers, with the header's hash.
#[derive(Clone, Debug)]
pub struct HeaderRow {
    pub height: u32,
    pub hash: [u8; 32],
    pub bytes: Vec<u8>,
}

/// The row of a header: its bytes, and the hash of those bytes.
pub fn header_row(height: u32, header: &StoredHeader) -> (row: HeaderRow)
    ensures
        row.height == height,
        row.bytes@ == chain::header_bytes(header@),
        row.hash@ == chain::header_hash(row.bytes@),
{
    HeaderRow { height, hash: header.hash(), bytes: header.bytes() }
}

/// A row of the table of transactions.
#[derive(Clone, Debug)]
pub struct TransactionRow {
    pub location: TransactionLocation,
    pub bytes: Vec<u8>,
}

/// A row of the table of transactions' identifiers.
#[derive(Clone, Copy, Debug)]
pub struct TxidRow {
    pub location: TransactionLocation,
    pub txid: [u8; 32],
}

/// What has been read of one block.
#[derive(Clone, Debug)]
pub struct BlockReader {
    height: u32,
    hash: [u8; 32],
    header: Vec<u8>,
    bodies: Vec<Vec<u8>>,
    txids: Vec<[u8; 32]>,
}

/// A [`BlockReader`] with its lists as sequences.
#[verifier::ext_equal]
pub struct BlockReaderView {
    pub height: u32,
    pub hash: Seq<u8>,
    pub header: Seq<u8>,
    pub bodies: Seq<Seq<u8>>,
    pub txids: Seq<[u8; 32]>,
}

impl View for BlockReader {
    type V = BlockReaderView;

    closed spec fn view(&self) -> BlockReaderView {
        BlockReaderView {
            height: self.height,
            hash: self.hash@,
            header: self.header@,
            bodies: bodies_view(self.bodies@),
            txids: self.txids@,
        }
    }
}

/// The hash is that of the header, and every transaction has its identifier.
pub open spec fn read_fits(read: BlockReaderView) -> bool {
    read.hash == chain::header_hash(read.header) && read.bodies.len() == read.txids.len()
}

/// The block that has been read.
pub open spec fn block_of(read: BlockReaderView) -> RawBlockView {
    RawBlockView {
        height: read.height,
        hash: read.hash,
        bytes: block_bytes(read.header, read.bodies),
        txids: parser::hashes_view(read.txids),
    }
}

/// A reader with one more transaction; nothing where the identifier's row is missing, or for
/// another place than the transaction's.
pub open spec fn with_row(
    reader: BlockReaderView,
    transaction: TransactionRow,
    txid: Option<TxidRow>,
) -> Option<BlockReaderView> {
    match txid {
        Some(row) => if row.location == transaction.location {
            Some(
                BlockReaderView {
                    bodies: reader.bodies.push(transaction.bytes@),
                    txids: reader.txids.push(row.txid),
                    ..reader
                },
            )
        } else {
            None
        },
        None => None,
    }
}

/// A reader once the first `count` rows of both tables have come.
pub open spec fn with_rows(
    reader: BlockReaderView,
    transactions: Seq<TransactionRow>,
    txids: Seq<TxidRow>,
    count: nat,
) -> Option<BlockReaderView>
    decreases count,
{
    if count == 0 {
        Some(reader)
    } else {
        match with_rows(reader, transactions, txids, (count - 1) as nat) {
            None => None,
            Some(reader) => with_row(
                reader,
                transactions[count - 1],
                if count <= txids.len() {
                    Some(txids[count - 1])
                } else {
                    None
                },
            ),
        }
    }
}

/// Rows are taken exactly where both tables have them in the same places, and the block then has
/// the transactions and identifiers of all of them, in order.
pub proof fn law_rows_are_taken_in_step(
    reader: BlockReaderView,
    transactions: Seq<TransactionRow>,
    txids: Seq<TxidRow>,
    count: nat,
)
    requires
        count <= transactions.len(),
    ensures
        with_rows(reader, transactions, txids, count) is Some <==> count <= txids.len() && (forall|
            i: int,
        |
            0 <= i < count ==> transactions[i].location == txids[i].location),
        with_rows(reader, transactions, txids, count) matches Some(read) ==> read == (
        BlockReaderView {
            bodies: reader.bodies + Seq::new(count, |i: int| transactions[i].bytes@),
            txids: reader.txids + Seq::new(count, |i: int| txids[i].txid),
            ..reader
        }),
    decreases count,
{
    if count > 0 {
        let before = (count - 1) as nat;
        law_rows_are_taken_in_step(reader, transactions, txids, before);
        if with_rows(reader, transactions, txids, count) is Some {
            let read = with_rows(reader, transactions, txids, count)->Some_0;
            assert(read.bodies =~= reader.bodies + Seq::new(
                count,
                |i: int| transactions[i].bytes@,
            ));
            assert(read.txids =~= reader.txids + Seq::new(count, |i: int| txids[i].txid));
        }
    } else {
        assert(reader.bodies + Seq::new(0, |i: int| transactions[i].bytes@) =~= reader.bodies);
        assert(reader.txids + Seq::new(0, |i: int| txids[i].txid) =~= reader.txids);
    }
}

/// What a wrong or missing header in front of a block is.
pub open spec fn start_gap(expected: u32, actual: Option<u32>) -> PipelineError {
    PipelineError::SourceGap { expected, actual }
}

/// A block of which only the header has been read.
pub open spec fn started_with(height: u32, header: Seq<u8>) -> BlockReaderView {
    BlockReaderView {
        height,
        hash: chain::header_hash(header),
        header,
        bodies: Seq::empty(),
        txids: Seq::empty(),
    }
}

impl BlockReader {
    /// What holds of every reader.
    pub open spec fn wf(&self) -> bool {
        read_fits(self@)
    }

    /// Begins the block at height `expected` with the next header of a stream, and its height.
    pub fn start(expected: u32, header: Option<(u32, StoredHeader)>) -> (reader: Result<
        BlockReader,
        PipelineError,
    >)
        ensures
            match (header, reader) {
                (None, Err(error)) => error == start_gap(expected, None),
                (Some((height, _)), Err(error)) => height != expected && error == start_gap(
                    expected,
                    Some(height),
                ),
                (Some((height, header)), Ok(reader)) => height == expected && reader@
                    == started_with(expected, chain::header_bytes(header@)) && reader.wf(),
                _ => false,
            },
    {
        match header {
            None => Err(PipelineError::SourceGap { expected, actual: None }),
            Some((height, header)) => {
                if height != expected {
                    return Err(PipelineError::SourceGap { expected, actual: Some(height) });
                }
                let row = header_row(height, &header);
                let reader = BlockReader {
                    height: expected,
                    hash: row.hash,
                    header: row.bytes,
                    bodies: Vec::new(),
                    txids: Vec::new(),
                };
                assert(reader@.bodies =~= Seq::empty());
                Ok(reader)
            },
        }
    }

    /// Number of transactions so far.
    pub fn transactions(&self) -> (count: usize)
        ensures
            count == self@.bodies.len(),
    {
        self.bodies.len()
    }

    /// Whether a transaction at this place belongs to the block.
    pub fn wants(&self, location: TransactionLocation) -> (wanted: bool)
        ensures
            wanted == (location.height == self@.height),
    {
        location.height == self.height
    }

    /// Takes a transaction, and its identifier from the next row of the other table.
    pub fn push(&mut self, transaction: TransactionRow, txid: Option<TxidRow>) -> (pushed: Result<
        (),
        PipelineError,
    >)
        requires
            old(self).wf(),
        ensures
            final(self).wf(),
            match with_row(old(self)@, transaction, txid) {
                Some(read) => pushed == Ok::<(), PipelineError>(()) && final(self)@ == read,
                None => pushed == Err::<(), PipelineError>(PipelineError::SourceChanged)
                    && final(self)@ == old(self)@,
            },
    {
        match txid {
            None => Err(PipelineError::SourceChanged),
            Some(row) => {
                if row.location.height != transaction.location.height || row.location.index
                    != transaction.location.index {
                    return Err(PipelineError::SourceChanged);
                }
                self.bodies.push(transaction.bytes);
                self.txids.push(row.txid);
                assert(self@.bodies =~= old(self)@.bodies.push(transaction.bytes@));
                Ok(())
            },
        }
    }
}

/// Why what was read is not the block of a stream that ends at `end`, if it is not; `next_txid` is
/// the place of the identifiers' row behind those of the block.
pub open spec fn source_refusal(
    read: BlockReaderView,
    next_txid: Option<TransactionLocation>,
    end: StreamEnd,
) -> Option<PipelineError> {
    let height = read.height;
    if read.bodies.len() == 0 {
        Some(PipelineError::MissingBody { height })
    } else if next_txid matches Some(location) && location.height == height {
        Some(PipelineError::SourceChanged)
    } else if height == end.height && (end.hash matches Some(hash) && hash@ != read.hash) {
        Some(PipelineError::SourceChanged)
    } else {
        None
    }
}

/// Why what was read makes no block, if it does not: it is not the block of the stream, or too
/// large.
pub open spec fn block_refusal(
    read: BlockReaderView,
    next_txid: Option<TransactionLocation>,
    end: StreamEnd,
    max_block_bytes: usize,
) -> Option<PipelineError> {
    let height = read.height;
    let len = block_bytes(read.header, read.bodies).len();
    let counted = counted_len(len, read.txids.len());
    if source_refusal(read, next_txid, end) is Some {
        source_refusal(read, next_txid, end)
    } else if counted > usize::MAX {
        Some(PipelineError::SourceSize { height })
    } else if counted > max_block_bytes {
        Some(
            PipelineError::BlockExceedsByteLimit {
                height,
                required: counted as usize,
                limit: max_block_bytes,
            },
        )
    } else {
        None
    }
}

proof fn lemma_bodies_len(bodies: Seq<Seq<u8>>, i: int)
    requires
        0 <= i < bodies.len(),
    ensures
        bodies.take(i + 1).flatten() == bodies.take(i).flatten() + bodies[i],
        bodies.take(i + 1).flatten().len() <= bodies.flatten().len(),
{
    bodies.take(i).lemma_flatten_push(bodies[i]);
    assert(bodies.take(i + 1) =~= bodies.take(i).push(bodies[i]));
    bytes::lemma_flatten_split(bodies, i + 1);
}

/// `start` and the lengths of the transactions together, or nothing where no `usize` holds them.
fn checked_bodies_len(start: usize, bodies: &Vec<Vec<u8>>) -> (len: Option<usize>)
    ensures
        match len {
            Some(len) => len == start + bodies_view(bodies@).flatten().len(),
            None => start + bodies_view(bodies@).flatten().len() > usize::MAX,
        },
{
    let ghost views = bodies_view(bodies@);
    let mut len: usize = start;
    let mut i: usize = 0;
    assert(views.take(0).flatten() =~= Seq::empty());
    while i < bodies.len()
        invariant
            i <= bodies@.len(),
            views == bodies_view(bodies@),
            len == start + views.take(i as int).flatten().len(),
        decreases bodies@.len() - i,
    {
        proof {
            lemma_bodies_len(views, i as int);
        }
        len = len.checked_add(bodies[i].len())?;
        i = i + 1;
    }
    assert(views.take(i as int) =~= views);
    Some(len)
}

/// Writes a block: header, number of transactions, transactions.
pub(crate) fn put_block(
    header: &[u8],
    count: &[u8],
    bodies: &Vec<Vec<u8>>,
    capacity: usize,
) -> (block: Vec<u8>)
    ensures
        block@ == header@ + count@ + bodies_view(bodies@).flatten(),
{
    let ghost views = bodies_view(bodies@);
    let ghost head = header@ + count@;
    let mut block: Vec<u8> = Vec::with_capacity(capacity);
    bytes::append(&mut block, header);
    bytes::append(&mut block, count);
    let mut i: usize = 0;
    assert(views.take(0).flatten() =~= Seq::empty());
    assert(block@ =~= head + views.take(0).flatten());
    while i < bodies.len()
        invariant
            i <= bodies@.len(),
            views == bodies_view(bodies@),
            block@ == head + views.take(i as int).flatten(),
        decreases bodies@.len() - i,
    {
        proof {
            lemma_bodies_len(views, i as int);
        }
        bytes::append(&mut block, bodies[i].as_slice());
        assert(block@ =~= head + views.take(i + 1).flatten());
        i = i + 1;
    }
    assert(views.take(i as int) =~= views);
    block
}

/// Refuses what is not the block of a stream that ends at `end`.
pub fn check_source(
    parts: &BlockReader,
    next_txid: Option<TransactionLocation>,
    end: StreamEnd,
) -> (checked: Result<(), PipelineError>)
    ensures
        checked == (match source_refusal(parts@, next_txid, end) {
            Some(error) => Err::<(), PipelineError>(error),
            None => Ok(()),
        }),
{
    let height: u32 = parts.height;
    if parts.bodies.len() == 0 {
        return Err(PipelineError::MissingBody { height });
    }
    if let Some(location) = next_txid {
        if location.height == height {
            return Err(PipelineError::SourceChanged);
        }
    }
    if height == end.height {
        if let Some(hash) = &end.hash {
            if !bytes::same_bytes(hash.as_slice(), parts.hash.as_slice()) {
                return Err(PipelineError::SourceChanged);
            }
        }
    }
    Ok(())
}

/// Puts a block together, for a stream that ends at `end`.
pub fn assemble_block(
    parts: BlockReader,
    next_txid: Option<TransactionLocation>,
    end: StreamEnd,
    max_block_bytes: usize,
) -> (assembled: Result<RawIndexBlock, PipelineError>)
    requires
        parts@.bodies.len() <= MAX_MESSAGE_ITEMS,
    ensures
        match (block_refusal(parts@, next_txid, end, max_block_bytes), assembled) {
            (Some(error), Err(actual)) => actual == error,
            (None, Ok(block)) => block@ == block_of(parts@),
            _ => false,
        },
{
    let height: u32 = parts.height;
    check_source(&parts, next_txid, end)?;
    let count_bytes = item_count_bytes(parts.bodies.len());
    let head_len: usize = match parts.header.len().checked_add(count_bytes.len()) {
        Some(len) => len,
        None => return Err(PipelineError::SourceSize { height }),
    };
    let size: usize = match checked_bodies_len(head_len, &parts.bodies) {
        Some(size) => size,
        None => return Err(PipelineError::SourceSize { height }),
    };
    let required: usize = match checked_counted_len(size, parts.txids.len()) {
        Some(required) => required,
        None => return Err(PipelineError::SourceSize { height }),
    };
    if required > max_block_bytes {
        return Err(
            PipelineError::BlockExceedsByteLimit { height, required, limit: max_block_bytes },
        );
    }
    let bytes = put_block(parts.header.as_slice(), count_bytes.as_slice(), &parts.bodies, size);
    Ok(RawIndexBlock { height, hash: parts.hash, bytes, txids: parts.txids })
}

/// The number of transactions in a block's bytes is read back behind the header.
pub proof fn law_transaction_count_is_read_back(header: Seq<u8>, bodies: Seq<Seq<u8>>)
    requires
        bodies.len() <= MAX_MESSAGE_ITEMS,
    ensures
        parser::compact_size(
            block_bytes(header, bodies),
            Ok(header.len() as int),
            MAX_MESSAGE_ITEMS as nat,
        ) == Ok::<(nat, int), parser::TransactionParseError>(
            (
                bodies.len(),
                (header.len() + parser::compact_size_bytes(bodies.len()).len()) as int,
            ),
        ),
{
    parser::law_compact_size_round_trip(
        header,
        bodies.len() as u64,
        bodies.flatten(),
        MAX_MESSAGE_ITEMS as nat,
    );
}

// ---------------------------------------------------------------------------
// Streaming
// ---------------------------------------------------------------------------

/// Number of blocks in a segment.
pub open spec fn segment_len(segment: StreamSegment) -> nat {
    if segment.start <= segment.end.height {
        (segment.end.height - segment.start + 1) as nat
    } else {
        0
    }
}

/// What the blocks' bytes come to.
pub open spec fn bytes_sum(given: Seq<BlockReaderView>) -> nat
    decreases given.len(),
{
    if given.len() == 0 {
        0
    } else {
        bytes_sum(given.drop_last()) + block_of(given.last()).bytes.len()
    }
}

/// What a stream has to give, and the blocks that it has given out.
#[verifier::ext_equal]
pub struct StreamView {
    pub segment: StreamSegment,
    pub max_block_bytes: usize,
    pub given: Seq<BlockReaderView>,
}

/// A block of a stream is the one at its height, with the hash of its header, with a transaction
/// and no more transactions than identifiers, and within the limit.
pub open spec fn is_given(stream: StreamView, read: BlockReaderView, i: int) -> bool {
    &&& read.height == stream.segment.start + i
    &&& read_fits(read)
    &&& read.bodies.len() > 0
    &&& counted_len(block_of(read).bytes.len(), read.txids.len()) <= stream.max_block_bytes
}

/// The blocks that a stream has given out run from its first height on, without a gap, and the
/// last of all has the hash that was known.
pub open spec fn stream_fits(stream: StreamView) -> bool {
    &&& stream.given.len() <= segment_len(stream.segment)
    &&& forall|i: int|
        0 <= i < stream.given.len() ==> is_given(stream, #[trigger] stream.given[i], i)
    &&& stream.given.len() > 0 && stream.given.len() == segment_len(stream.segment) ==> (
    stream.segment.end.hash matches Some(hash) ==> stream.given.last().hash == hash@)
}

/// Gives out the blocks of a segment, one after the other.
pub struct BlockStream {
    segment: StreamSegment,
    max_block_bytes: usize,
    blocks: u64,
    bytes: u128,
    given: Ghost<Seq<BlockReaderView>>,
}

impl View for BlockStream {
    type V = StreamView;

    closed spec fn view(&self) -> StreamView {
        StreamView {
            segment: self.segment,
            max_block_bytes: self.max_block_bytes,
            given: self.given@,
        }
    }
}

impl BlockStream {
    /// What holds of every stream.
    pub closed spec fn wf(&self) -> bool {
        &&& stream_fits(self@)
        &&& self.blocks == self.given@.len()
        &&& self.bytes == bytes_sum(self.given@)
        &&& self.bytes <= self.blocks * usize::MAX
    }

    pub fn new(segment: StreamSegment, max_block_bytes: usize) -> (stream: Self)
        ensures
            stream.wf(),
            stream@ == (StreamView { segment, max_block_bytes, given: Seq::empty() }),
    {
        BlockStream { segment, max_block_bytes, blocks: 0, bytes: 0, given: Ghost(Seq::empty()) }
    }

    /// The height of the next block, if one is left.
    pub fn next_height(&self) -> (height: Option<u32>)
        requires
            self.wf(),
        ensures
            stream_fits(self@),
            match height {
                None => self@.given.len() == segment_len(self@.segment),
                Some(height) => self@.given.len() < segment_len(self@.segment) && height
                    == self@.segment.start + self@.given.len(),
            },
    {
        if self.segment.start > self.segment.end.height || self.blocks > (self.segment.end.height
            - self.segment.start) as u64 {
            return None;
        }
        Some(self.segment.start + self.blocks as u32)
    }

    /// Begins the next block with the next header, and its height.
    pub fn start_block(&self, header: Option<(u32, StoredHeader)>) -> (reader: Result<
        BlockReader,
        PipelineError,
    >)
        requires
            self.wf(),
            self@.given.len() < segment_len(self@.segment),
        ensures
            ({
                let expected = (self@.segment.start + self@.given.len()) as u32;
                match (header, reader) {
                    (None, Err(error)) => error == start_gap(expected, None),
                    (Some((height, _)), Err(error)) => height != expected && error == start_gap(
                        expected,
                        Some(height),
                    ),
                    (Some((height, header)), Ok(reader)) => height == expected && reader@
                        == started_with(expected, chain::header_bytes(header@)) && reader.wf(),
                    _ => false,
                }
            }),
    {
        BlockReader::start(self.segment.start + self.blocks as u32, header)
    }

    /// Refuses what is not the stream's block, once all its transactions have been read.
    pub fn check_block(
        &self,
        reader: &BlockReader,
        next_txid: Option<TransactionLocation>,
    ) -> (checked: Result<(), PipelineError>)
        ensures
            checked == (match source_refusal(reader@, next_txid, self@.segment.end) {
                Some(error) => Err::<(), PipelineError>(error),
                None => Ok(()),
            }),
    {
        check_source(reader, next_txid, self.segment.end)
    }

    /// Gives out the next block, once all its transactions have been read.
    pub fn finish_block(
        &mut self,
        reader: BlockReader,
        next_txid: Option<TransactionLocation>,
    ) -> (block: Result<RawIndexBlock, PipelineError>)
        requires
            old(self).wf(),
            reader.wf(),
            old(self)@.given.len() < segment_len(old(self)@.segment),
            reader@.height == old(self)@.segment.start + old(self)@.given.len(),
            reader@.bodies.len() <= MAX_MESSAGE_ITEMS,
        ensures
            final(self).wf(),
            stream_fits(final(self)@),
            match (
                block_refusal(
                    reader@,
                    next_txid,
                    old(self)@.segment.end,
                    old(self)@.max_block_bytes,
                ),
                block,
            ) {
                (Some(error), Err(actual)) => actual == error && final(self)@ == old(self)@,
                (None, Ok(block)) => block@ == block_of(reader@) && final(self)@ == (StreamView {
                    given: old(self)@.given.push(reader@),
                    ..old(self)@
                }),
                _ => false,
            },
    {
        let ghost read = reader@;
        let ghost before = self.given@;
        let ghost blocks_before = self.blocks as int;
        let block = assemble_block(reader, next_txid, self.segment.end, self.max_block_bytes)?;
        let len: usize = block.bytes.len();
        proof {
            let after = before.push(read);
            assert(after.drop_last() =~= before);
            assert forall|i: int| 0 <= i < after.len() implies is_given(
                (StreamView { given: after, ..self@ }),
                #[trigger] after[i],
                i,
            ) by {
                if i < before.len() {
                    assert(is_given(self@, before[i], i));
                }
            }
            assert((blocks_before + 1) * usize::MAX == blocks_before * usize::MAX + usize::MAX)
                by (nonlinear_arith);
            assert(blocks_before * usize::MAX <= 0x1_0000_0000 * usize::MAX) by (nonlinear_arith)
                requires
                    0 <= blocks_before <= 0x1_0000_0000,
            ;
        }
        self.blocks = self.blocks + 1;
        self.bytes = self.bytes + len as u128;
        self.given = Ghost(before.push(read));
        Ok(block)
    }

    /// Number of blocks given out.
    pub fn blocks(&self) -> (blocks: u64)
        requires
            self.wf(),
        ensures
            blocks == self@.given.len(),
    {
        self.blocks
    }

    /// What the bytes of the blocks given out come to.
    pub fn bytes(&self) -> (bytes: u128)
        requires
            self.wf(),
        ensures
            bytes == bytes_sum(self@.given),
    {
        self.bytes
    }
}

// ---------------------------------------------------------------------------
// Laws
// ---------------------------------------------------------------------------

/// A block counts for its bytes, and 32 more for each transaction.
pub proof fn law_blocks_count_bytes_and_ids(bytes: nat, txids: nat)
    ensures
        counted_len(bytes, 0) == bytes,
        counted_len(bytes, txids + 1) == counted_len(bytes, txids) + 32,
        counted_len(bytes + 1, txids) == counted_len(bytes, txids) + 1,
{
}

/// A block's bytes begin with its header and end with its transactions: transaction `i` lies behind
/// the header, the count and the transactions before it, as it was read, and nothing lies behind
/// the last.
pub proof fn law_block_holds_every_transaction(read: BlockReaderView, i: int)
    requires
        0 <= i < read.bodies.len(),
    ensures
        ({
            let bytes = block_of(read).bytes;
            let first = read.header.len() + parser::compact_size_bytes(read.bodies.len()).len();
            let at = (first + read.bodies.take(i).flatten().len()) as int;
            &&& bytes.take(read.header.len() as int) == read.header
            &&& bytes.subrange(at, at + read.bodies[i].len()) == read.bodies[i]
            &&& bytes.len() == first + read.bodies.flatten().len()
        }),
{
    let bytes = block_of(read).bytes;
    let bodies = read.bodies;
    let first = (read.header.len() + parser::compact_size_bytes(bodies.len()).len()) as int;
    let at = first + bodies.take(i).flatten().len();
    lemma_bodies_len(bodies, i);
    bytes::lemma_flatten_split(bodies, i + 1);
    assert(bytes.take(read.header.len() as int) =~= read.header);
    assert(bodies.flatten() == bodies.take(i).flatten() + bodies[i] + bodies.skip(i + 1).flatten());
    assert(bytes.subrange(at, at + bodies[i].len()) =~= bodies[i]);
}

/// A block has the height and hash that were read, and its transactions' identifiers in their
/// order.
pub proof fn law_block_keeps_what_was_read(read: BlockReaderView, i: int)
    requires
        0 <= i < read.txids.len(),
    ensures
        block_of(read).height == read.height,
        block_of(read).hash == read.hash,
        block_of(read).txids.len() == read.txids.len(),
        block_of(read).txids[i] == read.txids[i]@,
{
}

/// A block begins with its header and the header's hash, and without transactions.
pub proof fn law_block_begins_with_its_header(height: u32, header: Seq<u8>)
    ensures
        started_with(height, header).height == height,
        started_with(height, header).header == header,
        started_with(height, header).hash == chain::header_hash(header),
        started_with(height, header).bodies.len() == 0,
        started_with(height, header).txids.len() == 0,
        read_fits(started_with(height, header)),
{
}

/// What was read is given out exactly where it has a transaction, no identifier of its height is
/// left, the hash at the stream's end is the known one, and it counts for no more than the limit.
/// Otherwise the first of these that fails is told.
pub proof fn law_only_whole_blocks_are_given(
    read: BlockReaderView,
    next_txid: Option<TransactionLocation>,
    end: StreamEnd,
    max_block_bytes: usize,
)
    ensures
        ({
            let height = read.height;
            let is_empty = read.bodies.len() == 0;
            let has_more = next_txid matches Some(location) && location.height == height;
            let is_other = height == end.height && (end.hash matches Some(hash) && hash@
                != read.hash);
            let counted = block_of(read).bytes.len() + 32 * read.txids.len();
            let source = source_refusal(read, next_txid, end);
            let refusal = block_refusal(read, next_txid, end, max_block_bytes);
            &&& source is None <==> !is_empty && !has_more && !is_other
            &&& is_empty ==> source == Some(PipelineError::MissingBody { height })
            &&& !is_empty && (has_more || is_other) ==> source == Some(PipelineError::SourceChanged)
            &&& source is Some ==> refusal == source
            &&& source is None && counted <= max_block_bytes ==> refusal is None
            &&& source is None && max_block_bytes < counted <= usize::MAX ==> refusal == Some(
                PipelineError::BlockExceedsByteLimit {
                    height,
                    required: counted as usize,
                    limit: max_block_bytes,
                },
            )
            &&& source is None && counted > usize::MAX ==> refusal == Some(
                PipelineError::SourceSize { height },
            )
        }),
{
}

/// A segment has its heights from the first to the last.
pub proof fn law_segment_counts_its_blocks(segment: StreamSegment)
    ensures
        segment.start <= segment.end.height ==> segment.start + segment_len(segment)
            == segment.end.height + 1,
        segment.start > segment.end.height ==> segment_len(segment) == 0,
{
}

/// The bytes of the blocks that were given out add up: one more block adds its own bytes.
pub proof fn law_given_bytes_add_up(given: Seq<BlockReaderView>, read: BlockReaderView)
    ensures
        bytes_sum(Seq::<BlockReaderView>::empty()) == 0,
        bytes_sum(given.push(read)) == bytes_sum(given) + block_of(read).bytes.len(),
{
    assert(given.push(read).drop_last() =~= given);
}

/// Block `i` that a stream has given out is that of height `i` behind its first, with the hash of
/// its header, an identifier for each of its transactions, at least one of them, and within the
/// limit; and the last of all has the hash that was known.
pub proof fn law_stream_gives_blocks_in_order(stream: StreamView, i: int)
    requires
        stream_fits(stream),
        0 <= i < stream.given.len(),
    ensures
        stream.given[i].height == stream.segment.start + i,
        stream.given[i].height <= stream.segment.end.height,
        stream.given[i].hash == chain::header_hash(stream.given[i].header),
        stream.given[i].bodies.len() == stream.given[i].txids.len(),
        stream.given[i].bodies.len() > 0,
        block_of(stream.given[i]).bytes.len() + 32 * stream.given[i].txids.len()
            <= stream.max_block_bytes,
        stream.given[i].height == stream.segment.end.height ==> (
        stream.segment.end.hash matches Some(hash) ==> stream.given[i].hash == hash@),
{
    assert(is_given(stream, stream.given[i], i));
}

} // verus!
