//! Rules of the compact transaction streamer: what requests are accepted, and what they are
//! answered with.
use vstd::prelude::*;
use vstd::string::StringExecFns;
use zakura_chain::orchard::tree::NoteCommitmentTree as OrchardTree;
use zakura_chain::sapling::tree::NoteCommitmentTree as SaplingTree;

use crate::bytes;
use crate::chain;
use crate::chain::StoredTransaction;
use crate::codec::CompactBlockRecord;
use crate::index::{BlockId, IndexError, IndexState};
use crate::indexer;
use crate::text;

verus! {

/// No more ranges than this are read at the same time.
pub const MAX_RANGE_READERS: usize = 16;

/// What kind of failure a status tells of.
#[derive(Clone, Copy, Debug, PartialEq, Eq, Structural)]
pub enum Code {
    InvalidArgument,
    NotFound,
    OutOfRange,
    Unimplemented,
    Internal,
    Unavailable,
}

/// Why a request is not answered.
#[derive(Clone, Debug, PartialEq, Eq)]
pub struct Status {
    pub code: Code,
    pub message: String,
}

/// A [`Status`] with its message as characters.
#[verifier::ext_equal]
pub struct StatusView {
    pub code: Code,
    pub message: Seq<char>,
}

impl View for Status {
    type V = StatusView;

    open spec fn view(&self) -> StatusView {
        StatusView { code: self.code, message: self.message@ }
    }
}

impl Status {
    fn new(code: Code, message: &str) -> (status: Self)
        ensures
            status@ == (StatusView { code, message: message@ }),
    {
        Status { code, message: String::from_str(message) }
    }
}

pub open spec fn invalid_argument(message: Seq<char>) -> StatusView {
    StatusView { code: Code::InvalidArgument, message }
}

pub open spec fn unavailable(message: Seq<char>) -> StatusView {
    StatusView { code: Code::Unavailable, message }
}

// ---------------------------------------------------------------------------
// Snapshots
// ---------------------------------------------------------------------------

/// What the service shows of the index.
#[derive(Clone, Copy, Debug, PartialEq, Eq)]
pub struct ServingSnapshot {
    pub generation: u64,
    pub visible_tip: Option<BlockId>,
}

impl From<IndexState> for ServingSnapshot {
    fn from(state: IndexState) -> (snapshot: Self) {
        ServingSnapshot { generation: state.generation(), visible_tip: state.durable_tip() }
    }
}

impl vstd::std_specs::convert::FromSpecImpl<IndexState> for ServingSnapshot {
    open spec fn obeys_from_spec() -> bool {
        true
    }

    open spec fn from_spec(state: IndexState) -> ServingSnapshot {
        ServingSnapshot { generation: state@.generation, visible_tip: state@.durable_tip }
    }
}

/// A block in a request or an answer, by height or by hash.
#[derive(Clone, Debug, PartialEq, Eq)]
pub struct BlockRef {
    pub height: u64,
    pub hash: Vec<u8>,
}

/// `block` names `id`.
pub open spec fn names_block(block: BlockRef, id: BlockId) -> bool {
    block.height == id.height && block.hash@ == id.hash@
}

impl ServingSnapshot {
    /// The block at the tip.
    pub fn latest_block(&self) -> (block: Result<BlockRef, Status>)
        ensures
            match (self.visible_tip, block) {
                (None, Err(status)) => status@ == unavailable("compact index is empty"@),
                (Some(tip), Ok(block)) => names_block(block, tip),
                _ => false,
            },
    {
        match self.visible_tip {
            None => Err(Status::new(Code::Unavailable, "compact index is empty")),
            Some(tip) => {
                let hash: Vec<u8> = bytes::copy_range(tip.hash.as_slice(), 0, 32);
                assert(hash@ =~= tip.hash@);
                Ok(BlockRef { height: tip.height as u64, hash })
            },
        }
    }
}

// ---------------------------------------------------------------------------
// Blocks
// ---------------------------------------------------------------------------

/// How a block is looked up.
#[derive(Clone, Copy, Debug, PartialEq, Eq)]
pub enum Lookup {
    Height(u32),
    Hash([u8; 32]),
}

/// How the block of a request is looked up: by its hash, or by its height where the hash is empty.
pub fn lookup(request: &BlockRef) -> (lookup: Result<Lookup, Status>)
    ensures
        if request.hash@.len() == 0 {
            if request.height <= u32::MAX {
                lookup matches Ok(Lookup::Height(height)) && height == request.height
            } else {
                lookup matches Err(status) && status@ == invalid_argument(
                    "block height exceeds u32"@,
                )
            }
        } else if request.hash@.len() == 32 {
            lookup matches Ok(Lookup::Hash(hash)) && hash@ == request.hash@
        } else {
            lookup matches Err(status) && status@ == invalid_argument(
                "block hash must be 32 bytes"@,
            )
        },
{
    if request.hash.len() == 0 {
        match u32::try_from(request.height) {
            Ok(height) => Ok(Lookup::Height(height)),
            Err(_) => Err(Status::new(Code::InvalidArgument, "block height exceeds u32")),
        }
    } else if request.hash.len() == 32 {
        let hash: [u8; 32] = bytes::get_array(request.hash.as_slice(), 0);
        assert(hash@ =~= request.hash@);
        Ok(Lookup::Hash(hash))
    } else {
        Err(Status::new(Code::InvalidArgument, "block hash must be 32 bytes"))
    }
}

/// The record that a lookup in the index has found.
pub fn found_record(read: Result<Option<CompactBlockRecord>, IndexError>) -> (found: Result<
    CompactBlockRecord,
    Status,
>)
    ensures
        match (read, found) {
            (Ok(Some(record)), Ok(found)) => found == record,
            (Ok(None), Err(status)) => status@ == (StatusView {
                code: Code::NotFound,
                message: "block is not in the indexed canonical chain"@,
            }),
            (Err(error), Err(status)) => status@ == index_failure(error),
            _ => false,
        },
{
    match read {
        Ok(Some(record)) => Ok(record),
        Ok(None) => Err(
            Status::new(Code::NotFound, "block is not in the indexed canonical chain"),
        ),
        Err(error) => Err(index_status(&error)),
    }
}

// ---------------------------------------------------------------------------
// Ranges
// ---------------------------------------------------------------------------

/// A pool that a request can ask for.
#[derive(Clone, Copy, Debug, PartialEq, Eq, Structural)]
pub enum PoolType {
    Transparent,
    Sapling,
    Orchard,
    Ironwood,
}

/// A request for the blocks from one end to the other.
#[derive(Clone, Debug, PartialEq, Eq)]
pub struct BlockRange {
    pub start: Option<BlockRef>,
    pub end: Option<BlockRef>,
    pub pool_types: Vec<PoolType>,
}

/// Why an end of a range is refused, if it is.
pub open spec fn endpoint_refusal(name: Seq<char>, endpoint: Option<BlockRef>) -> Option<
    StatusView,
> {
    match endpoint {
        None => Some(invalid_argument("range."@ + name + " is required"@)),
        Some(endpoint) => if endpoint.hash@.len() != 0 {
            Some(invalid_argument("range endpoints must be heights"@))
        } else if endpoint.height > u32::MAX {
            Some(invalid_argument("range height exceeds u32"@))
        } else {
            None
        },
    }
}

fn endpoint_height(name: &str, endpoint: &Option<BlockRef>) -> (height: Result<u32, Status>)
    ensures
        match (endpoint_refusal(name@, *endpoint), height) {
            (Some(refusal), Err(status)) => status@ == refusal,
            (None, Ok(height)) => height == endpoint->Some_0.height,
            _ => false,
        },
{
    let endpoint = match endpoint {
        None => {
            return Err(
                Status {
                    code: Code::InvalidArgument,
                    message: String::from_str("range.").concat(name).concat(" is required"),
                },
            );
        },
        Some(endpoint) => endpoint,
    };
    if endpoint.hash.len() != 0 {
        return Err(Status::new(Code::InvalidArgument, "range endpoints must be heights"));
    }
    match u32::try_from(endpoint.height) {
        Ok(height) => Ok(height),
        Err(_) => Err(Status::new(Code::InvalidArgument, "range height exceeds u32")),
    }
}

/// The heights at the ends of a range.
pub fn range_heights(request: &BlockRange) -> (heights: Result<(u32, u32), Status>)
    ensures
        match (
            endpoint_refusal("start"@, request.start),
            endpoint_refusal("end"@, request.end),
            heights,
        ) {
            (Some(refusal), _, Err(status)) => status@ == refusal,
            (None, Some(refusal), Err(status)) => status@ == refusal,
            (None, None, Ok((start, end))) => start == request.start->Some_0.height && end
                == request.end->Some_0.height,
            _ => false,
        },
{
    let start: u32 = endpoint_height("start", &request.start)?;
    let end: u32 = endpoint_height("end", &request.end)?;
    Ok((start, end))
}

/// Refuses to serve transparent data.
pub fn check_pools(pool_types: &Vec<PoolType>) -> (checked: Result<(), Status>)
    ensures
        if pool_types@.contains(PoolType::Transparent) {
            checked matches Err(status) && status@ == invalid_argument(
                "transparent data is not served"@,
            )
        } else {
            checked is Ok
        },
{
    let mut i: usize = 0;
    while i < pool_types.len()
        invariant
            i <= pool_types@.len(),
            forall|j: int| 0 <= j < i ==> pool_types@[j] != PoolType::Transparent,
        decreases pool_types@.len() - i,
    {
        if pool_types[i] == PoolType::Transparent {
            assert(pool_types@[i as int] == PoolType::Transparent);
            return Err(Status::new(Code::InvalidArgument, "transparent data is not served"));
        }
        i = i + 1;
    }
    Ok(())
}

/// The heights from `start` to `end`, both with, up or down.
pub open spec fn heights_between(start: u32, end: u32) -> Seq<int> {
    if start <= end {
        Seq::new((end - start + 1) as nat, |i: int| start + i)
    } else {
        Seq::new((start - end + 1) as nat, |i: int| start - i)
    }
}

/// The heights of a range, one after the other.
#[derive(Clone, Copy, Debug)]
pub struct HeightWalk {
    next: Option<u32>,
    end: u32,
}

impl View for HeightWalk {
    type V = Seq<int>;

    /// The heights that are left.
    closed spec fn view(&self) -> Seq<int> {
        match self.next {
            None => Seq::empty(),
            Some(next) => heights_between(next, self.end),
        }
    }
}

impl HeightWalk {
    /// The walk from `start` to `end`.
    pub fn new(start: u32, end: u32) -> (walk: Self)
        ensures
            walk@ == heights_between(start, end),
    {
        HeightWalk { next: Some(start), end }
    }

    /// The next height, if one is left.
    pub fn next_height(&mut self) -> (height: Option<u32>)
        ensures
            match height {
                None => old(self)@.len() == 0 && final(self)@ == old(self)@,
                Some(height) => old(self)@.len() > 0 && height == old(self)@[0] && final(self)@
                    == old(self)@.skip(1),
            },
    {
        let current: Option<u32> = self.next;
        self.next = match current {
            None => None,
            Some(current) => if current < self.end {
                Some(current + 1)
            } else if current > self.end {
                Some(current - 1)
            } else {
                None
            },
        };
        assert(current is Some ==> self@ =~= old(self)@.skip(1));
        current
    }
}

/// The heights that a request for a range of blocks asks for, once its ends and its pools have
/// passed.
pub fn range_request(request: &BlockRange) -> (walk: Result<HeightWalk, Status>)
    ensures
        match (
            endpoint_refusal("start"@, request.start),
            endpoint_refusal("end"@, request.end),
            request.pool_types@.contains(PoolType::Transparent),
            walk,
        ) {
            (Some(refusal), _, _, Err(status)) => status@ == refusal,
            (None, Some(refusal), _, Err(status)) => status@ == refusal,
            (None, None, true, Err(status)) => status@ == invalid_argument(
                "transparent data is not served"@,
            ),
            (None, None, false, Ok(walk)) => walk@ == heights_between(
                request.start->Some_0.height as u32,
                request.end->Some_0.height as u32,
            ),
            _ => false,
        },
{
    let (start, end): (u32, u32) = range_heights(request)?;
    check_pools(&request.pool_types)?;
    Ok(HeightWalk::new(start, end))
}

/// A range holds each height between its ends exactly once, and the range the other way round
/// holds them in the opposite order.
pub proof fn law_range_holds_each_height_once(start: u32, end: u32)
    ensures
        forall|height: int|
            heights_between(start, end).contains(height) <==> (start <= height <= end || end
                <= height <= start),
        heights_between(start, end).no_duplicates(),
        heights_between(end, start) == heights_between(start, end).reverse(),
{
    let heights = heights_between(start, end);
    assert forall|height: int| start <= height <= end || end <= height <= start implies
        heights.contains(height) by {
        if start <= end {
            assert(heights[height - start] == height);
        } else {
            assert(heights[start - height] == height);
        }
    }
    assert(heights_between(end, start) =~= heights.reverse());
}

// ---------------------------------------------------------------------------
// Tree states
// ---------------------------------------------------------------------------

/// The trees behind a block, as text.
#[derive(Clone, Debug, PartialEq, Eq)]
pub struct TreeState {
    pub network: String,
    pub height: u64,
    pub hash: String,
    pub time: u32,
    pub sapling_tree: String,
    pub orchard_tree: String,
    pub ironwood_tree: String,
}

/// A tree's bytes as text; empty where there is no tree.
pub open spec fn tree_text(tree: Option<Seq<u8>>) -> Seq<char> {
    match tree {
        None => Seq::empty(),
        Some(bytes) => text::hex_text(bytes),
    }
}

pub open spec fn bytes_view(bytes: Option<Vec<u8>>) -> Option<Seq<u8>> {
    match bytes {
        None => None,
        Some(bytes) => Some(bytes@),
    }
}

/// `state` is that of the block of `record`, with these trees.
pub open spec fn is_tree_state(
    state: TreeState,
    network: Seq<char>,
    record: CompactBlockRecord,
    sapling: Option<Seq<u8>>,
    orchard: Option<Seq<u8>>,
    ironwood: Option<Seq<u8>>,
) -> bool {
    &&& state.network@ == network
    &&& state.height == record.height
    &&& state.hash@ == text::hex_text(record.hash@.reverse())
    &&& state.time == record.time
    &&& state.sapling_tree@ == tree_text(sapling)
    &&& state.orchard_tree@ == tree_text(orchard)
    &&& state.ironwood_tree@ == tree_text(ironwood)
}

fn encode_tree(tree: Option<Vec<u8>>) -> (encoded: String)
    ensures
        encoded@ == tree_text(bytes_view(tree)),
{
    match tree {
        None => {
            let empty = String::new();
            assert(empty@ =~= Seq::empty());
            empty
        },
        Some(bytes) => text::hex_encode(bytes.as_slice()),
    }
}

/// The answer with trees that are bytes already.
pub fn tree_state_of_bytes(
    network: &str,
    record: &CompactBlockRecord,
    sapling: Option<Vec<u8>>,
    orchard: Option<Vec<u8>>,
    ironwood: Option<Vec<u8>>,
) -> (state: TreeState)
    ensures
        is_tree_state(
            state,
            network@,
            *record,
            bytes_view(sapling),
            bytes_view(orchard),
            bytes_view(ironwood),
        ),
{
    TreeState {
        network: String::from_str(network),
        height: record.height as u64,
        hash: text::block_hash_text(&record.hash),
        time: record.time,
        sapling_tree: encode_tree(sapling),
        orchard_tree: encode_tree(orchard),
        ironwood_tree: encode_tree(ironwood),
    }
}

/// The bytes of a Sapling tree.
pub open spec fn sapling_bytes(tree: Option<SaplingTree>) -> Option<Seq<u8>> {
    match tree {
        None => None,
        Some(tree) => Some(indexer::tree::sapling_rpc_bytes(indexer::tree::sapling_leaves(tree))),
    }
}

/// The bytes of an Orchard or Ironwood tree.
pub open spec fn orchard_bytes(tree: Option<OrchardTree>) -> Option<Seq<u8>> {
    match tree {
        None => None,
        Some(tree) => Some(indexer::tree::orchard_rpc_bytes(indexer::tree::orchard_leaves(tree))),
    }
}

fn encode_orchard(tree: &Option<OrchardTree>) -> (bytes: Option<
    Vec<u8>,
>)
    ensures
        bytes_view(bytes) == orchard_bytes(*tree),
{
    match tree {
        None => None,
        Some(tree) => Some(indexer::tree::orchard_to_rpc_bytes(tree)),
    }
}

/// The answer with the trees behind a block.
pub fn tree_state(
    network: &str,
    record: &CompactBlockRecord,
    sapling: &Option<SaplingTree>,
    orchard: &Option<OrchardTree>,
    ironwood: &Option<OrchardTree>,
) -> (state: TreeState)
    ensures
        is_tree_state(
            state,
            network@,
            *record,
            sapling_bytes(*sapling),
            orchard_bytes(*orchard),
            orchard_bytes(*ironwood),
        ),
{
    let sapling: Option<Vec<u8>> = match sapling {
        None => None,
        Some(tree) => Some(indexer::tree::sapling_to_rpc_bytes(tree)),
    };
    tree_state_of_bytes(
        network,
        record,
        sapling,
        encode_orchard(orchard),
        encode_orchard(ironwood),
    )
}

// ---------------------------------------------------------------------------
// Subtrees
// ---------------------------------------------------------------------------

/// A pool with a note commitment tree.
#[derive(Clone, Copy, Debug, PartialEq, Eq, Structural)]
pub enum ShieldedProtocol {
    Sapling,
    Orchard,
    Ironwood,
}

/// A request for roots of completed subtrees; the protocol is missing where its number is unknown.
#[derive(Clone, Copy, Debug, PartialEq, Eq)]
pub struct SubtreeRootsArg {
    pub start_index: u32,
    pub shielded_protocol: Option<ShieldedProtocol>,
    pub max_entries: u32,
}

/// What is asked of the chain: the roots from `start_index` on, up to `limit` of them.
#[derive(Clone, Copy, Debug, PartialEq, Eq)]
pub struct SubtreeQuery {
    pub protocol: ShieldedProtocol,
    pub start_index: u16,
    pub limit: Option<u16>,
}

/// Why a request for subtree roots is refused, if it is.
pub open spec fn subtree_refusal(request: SubtreeRootsArg) -> Option<StatusView> {
    if request.start_index > u16::MAX {
        Some(invalid_argument("subtree start index exceeds u16"@))
    } else if request.max_entries > u16::MAX {
        Some(invalid_argument("subtree entry limit exceeds u16"@))
    } else if request.shielded_protocol is None {
        Some(invalid_argument("invalid shielded protocol"@))
    } else {
        None
    }
}

/// What a request for subtree roots asks of the chain; no limit is written as zero.
pub fn subtree_query(request: SubtreeRootsArg) -> (query: Result<SubtreeQuery, Status>)
    ensures
        match (subtree_refusal(request), query) {
            (Some(refusal), Err(status)) => status@ == refusal,
            (None, Ok(query)) => {
                &&& Some(query.protocol) == request.shielded_protocol
                &&& query.start_index == request.start_index
                &&& if request.max_entries == 0 {
                    query.limit is None
                } else {
                    query.limit matches Some(limit) && limit == request.max_entries
                }
            },
            _ => false,
        },
{
    let start_index: u16 = match u16::try_from(request.start_index) {
        Ok(start_index) => start_index,
        Err(_) => {
            return Err(Status::new(Code::InvalidArgument, "subtree start index exceeds u16"));
        },
    };
    let limit: Option<u16> = if request.max_entries == 0 {
        None
    } else {
        match u16::try_from(request.max_entries) {
            Ok(limit) => Some(limit),
            Err(_) => {
                return Err(
                    Status::new(Code::InvalidArgument, "subtree entry limit exceeds u16"),
                );
            },
        }
    };
    match request.shielded_protocol {
        Some(protocol) => Ok(SubtreeQuery { protocol, start_index, limit }),
        None => Err(Status::new(Code::InvalidArgument, "invalid shielded protocol")),
    }
}

/// A subtree root, with the block that completed the subtree.
#[derive(Clone, Debug, PartialEq, Eq)]
pub struct SubtreeRoot {
    pub root_hash: Vec<u8>,
    pub completing_block_hash: Vec<u8>,
    pub completing_block_height: u64,
}

/// The answer with a root whose subtree the block at `height` completed, as the index has read
/// that block.
pub fn subtree_root(
    root_hash: Vec<u8>,
    height: u32,
    block: Result<CompactBlockRecord, IndexError>,
) -> (root: Result<SubtreeRoot, Status>)
    ensures
        match (block, root) {
            (Ok(block), Ok(root)) => {
                &&& root.root_hash@ == root_hash@
                &&& root.completing_block_hash@ == block.hash@
                &&& root.completing_block_height == height
            },
            (Err(error), Err(status)) => status@ == index_failure(error),
            _ => false,
        },
{
    match block {
        Err(error) => Err(index_status(&error)),
        Ok(block) => {
            let hash: Vec<u8> = bytes::copy_range(block.hash.as_slice(), 0, 32);
            assert(hash@ =~= block.hash@);
            Ok(
                SubtreeRoot {
                    root_hash,
                    completing_block_hash: hash,
                    completing_block_height: height as u64,
                },
            )
        },
    }
}

// ---------------------------------------------------------------------------
// Other requests
// ---------------------------------------------------------------------------

/// The identifier in a request for a transaction.
pub fn transaction_hash(hash: &Vec<u8>) -> (checked: Result<[u8; 32], Status>)
    ensures
        if hash@.len() == 32 {
            checked matches Ok(checked) && checked@ == hash@
        } else {
            checked matches Err(status) && status@ == invalid_argument(
                "transaction hash must be 32 bytes"@,
            )
        },
{
    if hash.len() == 32 {
        let checked: [u8; 32] = bytes::get_array(hash.as_slice(), 0);
        assert(checked@ =~= hash@);
        Ok(checked)
    } else {
        Err(Status::new(Code::InvalidArgument, "transaction hash must be 32 bytes"))
    }
}

/// A transaction's bytes, with the height of its block.
#[derive(Clone, Debug, PartialEq, Eq)]
pub struct RawTransaction {
    pub data: Vec<u8>,
    pub height: u64,
}

/// The answer with a transaction that the chain has at a height, or lacks.
pub fn found_transaction(transaction: Option<(Vec<u8>, u32)>) -> (found: Result<
    RawTransaction,
    Status,
>)
    ensures
        match (transaction, found) {
            (Some((data, height)), Ok(found)) => found.data@ == data@ && found.height == height,
            (None, Err(status)) => status@ == (StatusView {
                code: Code::NotFound,
                message: "transaction not found"@,
            }),
            _ => false,
        },
{
    match transaction {
        Some((data, height)) => Ok(RawTransaction { data, height: height as u64 }),
        None => Err(Status::new(Code::NotFound, "transaction not found")),
    }
}

/// The answer with a transaction as the chain has it, at a height, or lacks it.
pub fn stored_transaction(transaction: &Option<(StoredTransaction, u32)>) -> (found: Result<
    RawTransaction,
    Status,
>)
    ensures
        match (*transaction, found) {
            (Some((transaction, height)), Ok(found)) => found.data@ == chain::transaction_bytes(
                transaction@,
            ) && found.height == height,
            (None, Err(status)) => status@ == (StatusView {
                code: Code::NotFound,
                message: "transaction not found"@,
            }),
            _ => false,
        },
{
    found_transaction(
        match transaction {
            None => None,
            Some((transaction, height)) => Some((transaction.bytes(), *height)),
        },
    )
}

/// What the service says of itself.
#[derive(Clone, Debug, PartialEq, Eq)]
pub struct LightdInfo {
    pub version: String,
    pub vendor: String,
    pub taddr_support: bool,
    pub chain_name: String,
    pub block_height: u64,
    pub estimated_height: u64,
    pub lightwallet_protocol_version: String,
}

/// The height of the tip, or zero.
pub open spec fn visible_height(snapshot: ServingSnapshot) -> int {
    match snapshot.visible_tip {
        None => 0,
        Some(tip) => tip.height as int,
    }
}

/// What the service says of itself.
pub fn lightd_info(snapshot: &ServingSnapshot, chain_name: &str, version: &str) -> (info:
    LightdInfo)
    ensures
        info.version@ == version@,
        info.vendor@ == "Ztreamer"@,
        !info.taddr_support,
        info.chain_name@ == chain_name@,
        info.block_height == visible_height(*snapshot),
        info.estimated_height == visible_height(*snapshot),
        info.lightwallet_protocol_version@ == "0.5.0"@,
{
    let height: u64 = match snapshot.visible_tip {
        None => 0,
        Some(tip) => tip.height as u64,
    };
    LightdInfo {
        version: String::from_str(version),
        vendor: String::from_str("Ztreamer"),
        taddr_support: false,
        chain_name: String::from_str(chain_name),
        block_height: height,
        estimated_height: height,
        lightwallet_protocol_version: String::from_str("0.5.0"),
    }
}

/// The answer to a ping.
#[derive(Clone, Copy, Debug, PartialEq, Eq)]
pub struct PingResponse {
    pub entry: i64,
    pub exit: i64,
}

/// The answer to a ping.
pub fn ping() -> (response: PingResponse)
    ensures
        response == (PingResponse { entry: 1, exit: 0 }),
{
    PingResponse { entry: 1, exit: 0 }
}

// ---------------------------------------------------------------------------
// Failures
// ---------------------------------------------------------------------------

/// A method that the service does not have.
pub fn unsupported(method: &str) -> (status: Status)
    ensures
        status@ == (StatusView {
            code: Code::Unimplemented,
            message: "Ztreamer does not support "@ + method@,
        }),
{
    Status {
        code: Code::Unimplemented,
        message: String::from_str("Ztreamer does not support ").concat(method),
    }
}

/// A read of the chain that failed.
pub fn source_status(error: &str) -> (status: Status)
    ensures
        status@ == unavailable("Zakura read failed: "@ + error@),
{
    Status {
        code: Code::Unavailable,
        message: String::from_str("Zakura read failed: ").concat(error),
    }
}

/// A reader of the index that failed.
pub fn reader_status(error: &str) -> (status: Status)
    ensures
        status@ == unavailable("LMDB reader failed: "@ + error@),
{
    Status {
        code: Code::Unavailable,
        message: String::from_str("LMDB reader failed: ").concat(error),
    }
}

/// An answer of the chain to another question.
pub fn unexpected_response(kind: &str) -> (status: Status)
    ensures
        status@ == (StatusView {
            code: Code::Internal,
            message: "unexpected "@ + kind@ + " response"@,
        }),
{
    Status {
        code: Code::Internal,
        message: String::from_str("unexpected ").concat(kind).concat(" response"),
    }
}

/// The kind of failure that an error of the index is.
pub open spec fn index_code(error: IndexError) -> Code {
    match error {
        IndexError::Coverage { height } => Code::OutOfRange,
        IndexError::Generation { generation } => Code::Unavailable,
        _ => Code::Internal,
    }
}

/// What an error of the index is answered with.
pub open spec fn index_failure(error: IndexError) -> StatusView {
    StatusView { code: index_code(error), message: error.words() }
}

/// What an error of the index is answered with.
pub fn index_status(error: &IndexError) -> (status: Status)
    ensures
        status@ == index_failure(*error),
{
    let code = match error {
        IndexError::Coverage { height: _ } => Code::OutOfRange,
        IndexError::Generation { generation: _ } => Code::Unavailable,
        _ => Code::Internal,
    };
    Status { code, message: error.message() }
}

// ---------------------------------------------------------------------------
// Laws
// ---------------------------------------------------------------------------

/// An end of a range passes exactly where it is given by a height alone that 32 bits hold; one that
/// is missing, has a hash or lies higher is told what it lacks, in this order.
pub proof fn law_range_ends_are_heights(name: Seq<char>, endpoint: Option<BlockRef>)
    ensures
        endpoint_refusal(name, endpoint) is None <==> (endpoint matches Some(end) && end.hash@.len()
            == 0 && end.height <= 4_294_967_295),
        endpoint_refusal(name, endpoint) matches Some(status) ==> status.code
            == Code::InvalidArgument && status.message == (match endpoint {
            None => "range."@ + name + " is required"@,
            Some(end) => if end.hash@.len() > 0 {
                "range endpoints must be heights"@
            } else {
                "range height exceeds u32"@
            },
        }),
{
}

/// A request whose ends are both heights, of any height, is answered with a walk of every height
/// from the first end to the second: it begins at the one, ends at the other, and each step goes
/// one height further towards the end.
pub proof fn law_range_walks_from_end_to_end(request: BlockRange)
    requires
        request.start matches Some(start) && start.hash@.len() == 0 && start.height
            <= 4_294_967_295,
        request.end matches Some(end) && end.hash@.len() == 0 && end.height <= 4_294_967_295,
    ensures
        endpoint_refusal("start"@, request.start) is None,
        endpoint_refusal("end"@, request.end) is None,
        ({
            let start = request.start->Some_0.height;
            let end = request.end->Some_0.height;
            let walk = heights_between(start as u32, end as u32);
            let steps = if start <= end {
                end - start
            } else {
                start - end
            };
            &&& walk.len() == steps + 1
            &&& walk[0] == start
            &&& walk[steps] == end
            &&& forall|i: int|
                0 <= i <= steps ==> #[trigger] walk[i] == if start <= end {
                    start + i
                } else {
                    start - i
                }
        }),
{
}

proof fn lemma_tree_state_spells_each_tree(
    state: TreeState,
    network: Seq<char>,
    record: CompactBlockRecord,
    sapling: Option<Seq<u8>>,
    orchard: Option<Seq<u8>>,
    ironwood: Option<Seq<u8>>,
)
    requires
        is_tree_state(state, network, record, sapling, orchard, ironwood),
    ensures
        state.hash@.len() == 64,
        text::unhex(state.hash@) == record.hash@.reverse(),
        sapling matches Some(bytes) ==> text::unhex(state.sapling_tree@) == bytes
            && state.sapling_tree@.len() == 2 * bytes.len(),
        sapling is None ==> state.sapling_tree@.len() == 0,
        orchard matches Some(bytes) ==> text::unhex(state.orchard_tree@) == bytes
            && state.orchard_tree@.len() == 2 * bytes.len(),
        orchard is None ==> state.orchard_tree@.len() == 0,
        ironwood matches Some(bytes) ==> text::unhex(state.ironwood_tree@) == bytes
            && state.ironwood_tree@.len() == 2 * bytes.len(),
        ironwood is None ==> state.ironwood_tree@.len() == 0,
{
    text::law_hex_text_is_read_back(record.hash@.reverse());
    if let Some(bytes) = sapling {
        text::law_hex_text_is_read_back(bytes);
    }
    if let Some(bytes) = orchard {
        text::law_hex_text_is_read_back(bytes);
    }
    if let Some(bytes) = ironwood {
        text::law_hex_text_is_read_back(bytes);
    }
}

/// The trees of an answer spell, in hexadecimal digits, the bytes of the tree of the same pool, and
/// are empty where there is none; the hash spells the block's hash from its last byte to its first,
/// and network, height and time are those of the block.
pub proof fn law_tree_state_spells_each_tree(
    state: TreeState,
    network: Seq<char>,
    record: CompactBlockRecord,
    sapling: Option<Vec<u8>>,
    orchard: Option<Vec<u8>>,
    ironwood: Option<Vec<u8>>,
)
    requires
        is_tree_state(
            state,
            network,
            record,
            bytes_view(sapling),
            bytes_view(orchard),
            bytes_view(ironwood),
        ),
    ensures
        state.network@ == network,
        state.height == record.height,
        state.time == record.time,
        state.hash@.len() == 64,
        forall|i: int|
            0 <= i < 32 ==> #[trigger] text::unhex(state.hash@)[i] == record.hash@[31 - i],
        sapling matches Some(bytes) ==> text::unhex(state.sapling_tree@) == bytes@
            && state.sapling_tree@.len() == 2 * bytes@.len(),
        sapling is None ==> state.sapling_tree@.len() == 0,
        orchard matches Some(bytes) ==> text::unhex(state.orchard_tree@) == bytes@
            && state.orchard_tree@.len() == 2 * bytes@.len(),
        orchard is None ==> state.orchard_tree@.len() == 0,
        ironwood matches Some(bytes) ==> text::unhex(state.ironwood_tree@) == bytes@
            && state.ironwood_tree@.len() == 2 * bytes@.len(),
        ironwood is None ==> state.ironwood_tree@.len() == 0,
{
    lemma_tree_state_spells_each_tree(
        state,
        network,
        record,
        bytes_view(sapling),
        bytes_view(orchard),
        bytes_view(ironwood),
    );
}

/// The answer with the trees of the chain spells what each tree is as bytes, pool by pool, and is
/// empty for a pool without a tree.
pub proof fn law_tree_state_spells_the_trees_of_the_chain(
    state: TreeState,
    network: Seq<char>,
    record: CompactBlockRecord,
    sapling: Option<SaplingTree>,
    orchard: Option<OrchardTree>,
    ironwood: Option<OrchardTree>,
)
    requires
        is_tree_state(
            state,
            network,
            record,
            sapling_bytes(sapling),
            orchard_bytes(orchard),
            orchard_bytes(ironwood),
        ),
    ensures
        sapling matches Some(tree) ==> text::unhex(state.sapling_tree@)
            == indexer::tree::sapling_rpc_bytes(indexer::tree::sapling_leaves(tree)),
        sapling is None ==> state.sapling_tree@.len() == 0,
        orchard matches Some(tree) ==> text::unhex(state.orchard_tree@)
            == indexer::tree::orchard_rpc_bytes(indexer::tree::orchard_leaves(tree)),
        orchard is None ==> state.orchard_tree@.len() == 0,
        ironwood matches Some(tree) ==> text::unhex(state.ironwood_tree@)
            == indexer::tree::orchard_rpc_bytes(indexer::tree::orchard_leaves(tree)),
        ironwood is None ==> state.ironwood_tree@.len() == 0,
{
    lemma_tree_state_spells_each_tree(
        state,
        network,
        record,
        sapling_bytes(sapling),
        orchard_bytes(orchard),
        orchard_bytes(ironwood),
    );
}

/// A request for subtree roots passes exactly where both of its numbers fit 16 bits and its
/// protocol is known; otherwise the first thing that is wrong is named.
pub proof fn law_subtree_requests_fit_sixteen_bits(request: SubtreeRootsArg)
    ensures
        subtree_refusal(request) is None <==> request.start_index <= 65_535 && request.max_entries
            <= 65_535 && request.shielded_protocol is Some,
        subtree_refusal(request) matches Some(status) ==> status.code == Code::InvalidArgument
            && status.message == if request.start_index > 65_535 {
            "subtree start index exceeds u16"@
        } else if request.max_entries > 65_535 {
            "subtree entry limit exceeds u16"@
        } else {
            "invalid shielded protocol"@
        },
{
}

/// A refused argument and a service that cannot answer have codes of their own, and keep the words
/// that they are told.
pub proof fn law_statuses_keep_their_words(message: Seq<char>)
    ensures
        invalid_argument(message).code == Code::InvalidArgument,
        unavailable(message).code == Code::Unavailable,
        invalid_argument(message).message == message,
        unavailable(message).message == message,
{
}

/// A height that the index has not reached is out of range, a generation that has gone is a matter
/// of time, and every other error is internal; each is answered with its own words.
pub proof fn law_index_errors_keep_their_words(error: IndexError)
    ensures
        index_failure(error).message == error.words(),
        index_failure(error).code == Code::OutOfRange <==> error is Coverage,
        index_failure(error).code == Code::Unavailable <==> error is Generation,
        !(error is Coverage) && !(error is Generation) ==> index_failure(error).code
            == Code::Internal,
{
}

/// A snapshot shows the generation and the tip of the state that it was taken of, its height is
/// that of the tip or zero without one, and the reference to the tip has the tip's height and hash.
pub proof fn law_snapshot_shows_the_tip(state: IndexState, block: BlockRef)
    ensures
        ({
            let snapshot = <ServingSnapshot as vstd::std_specs::convert::FromSpec<
                IndexState,
            >>::from_spec(state);
            &&& snapshot.generation == state@.generation
            &&& snapshot.visible_tip == state@.durable_tip
            &&& state@.durable_tip is None ==> visible_height(snapshot) == 0
            &&& state@.durable_tip matches Some(tip) ==> visible_height(snapshot) == tip.height && (
            names_block(block, tip) <==> block.height == tip.height && block.hash@ == tip.hash@)
        }),
{
}

} // verus!
