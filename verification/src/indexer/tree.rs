//! Note commitment trees at the ends of sealed ranges.
use std::io::Cursor;

use vstd::prelude::*;
use vstd::slice::slice_subrange;
use vstd::string::StringExecFns;
use zakura_chain::orchard::tree::{
    NoteCommitmentTree as OrchardTree, NoteCommitmentTreeError as OrchardTreeError,
    NoteCommitmentUpdate as OrchardUpdate,
};
use zakura_chain::sapling::tree::{
    NoteCommitmentTree as SaplingTree, NoteCommitmentTreeError as SaplingTreeError,
    NoteCommitmentUpdate as SaplingUpdate,
};
use zakura_chain::serialization::{SerializationError, ZcashDeserialize};

use crate::bytes;
use crate::codec;
use crate::codec::{CompactBlockRecord, RecordView};
use crate::index::{IndexError, RANGE_SIZE};
use crate::parser;
use crate::parser::{ActionView, CompactTransaction, OutputView, TransactionView};
use crate::text;

verus! {

/// Number of leaves in a tracked subtree.
pub const SUBTREE_LEAVES: usize = 65_536;

/// Number of leaves that a tree can hold.
pub open spec fn tree_capacity() -> nat {
    0x1_0000_0000
}

// ---------------------------------------------------------------------------
// Trees and commitments of `zakura-chain`
// ---------------------------------------------------------------------------

/// The Sapling tree of `zakura-chain`.
#[verifier::external_type_specification]
#[verifier::external_body]
pub struct ExSaplingTree(zakura_chain::sapling::tree::NoteCommitmentTree);

/// The tree of `zakura-chain` that Orchard and Ironwood use.
#[verifier::external_type_specification]
#[verifier::external_body]
pub struct ExOrchardTree(zakura_chain::orchard::tree::NoteCommitmentTree);

/// A leaf of the Sapling tree.
#[verifier::external_type_specification]
#[verifier::external_body]
pub struct ExSaplingUpdate(zakura_chain::sapling::tree::NoteCommitmentUpdate);

/// A leaf of the Orchard or Ironwood tree.
#[verifier::external_type_specification]
#[verifier::external_body]
pub struct ExOrchardUpdate(zakura_chain::orchard::tree::NoteCommitmentUpdate);

/// Why the Sapling tree refuses leaves.
#[verifier::external_type_specification]
#[verifier::external_body]
pub struct ExSaplingTreeError(zakura_chain::sapling::tree::NoteCommitmentTreeError);

/// Why the Orchard tree refuses leaves.
#[verifier::external_type_specification]
#[verifier::external_body]
pub struct ExOrchardTreeError(zakura_chain::orchard::tree::NoteCommitmentTreeError);

/// Why bytes are no commitment.
#[verifier::external_type_specification]
#[verifier::external_body]
pub struct ExSerializationError(SerializationError);

/// `len` more leaves fit a tree of `size` leaves, and complete no more than one subtree.
pub open spec fn batch_fits(size: nat, len: nat) -> bool {
    len == 0 || (size + len <= tree_capacity() && size + len < (size / 65536 + 2) * 65536)
}

/// The leaves of a Sapling tree, first to last, as 32 bytes each.
pub uninterp spec fn sapling_leaves(tree: SaplingTree) -> Seq<Seq<u8>>;

/// The 32 bytes of a Sapling commitment.
pub uninterp spec fn sapling_update_bytes(update: SaplingUpdate) -> Seq<u8>;

/// What `to_rpc_bytes` makes of a Sapling tree with these leaves.
pub uninterp spec fn sapling_rpc_bytes(leaves: Seq<Seq<u8>>) -> Seq<u8>;

/// The order of the field of Sapling commitments.
pub open spec fn sapling_modulus() -> nat {
    0x73eda753299d7d483339d80809a1d80553bda402fffe5bfeffffffff00000001nat
}

pub open spec fn sapling_updates_view(updates: Seq<SaplingUpdate>) -> Seq<Seq<u8>> {
    Seq::new(updates.len(), |i: int| sapling_update_bytes(updates[i]))
}

/// `NoteCommitmentUpdate::zcash_deserialize` of `zakura-chain`'s `sapling::tree`: a commitment from
/// its 32 bytes.
///
/// Claimed: it succeeds exactly where the bytes, read as a little-endian number, lie below the
/// modulus of the field, and the commitment's bytes are then those given.
#[verifier::external_body]
fn sapling_update(bytes: &[u8; 32]) -> (update: Result<SaplingUpdate, SerializationError>)
    ensures
        match update {
            Ok(update) => bytes::le_value(bytes@) < sapling_modulus()
                && sapling_update_bytes(update) == bytes@,
            Err(_) => bytes::le_value(bytes@) >= sapling_modulus(),
        },
{
    SaplingUpdate::zcash_deserialize(Cursor::new(*bytes))
}

/// `NoteCommitmentTree::default` of `zakura-chain`'s `sapling::tree`: a tree without leaves.
#[verifier::external_body]
fn empty_sapling_tree() -> (tree: SaplingTree)
    ensures
        sapling_leaves(tree) == Seq::<Seq<u8>>::empty(),
{
    SaplingTree::default()
}

/// `NoteCommitmentTree::position` of `zakura-chain`'s `sapling::tree`: the place of the last leaf,
/// counted from zero, or nothing in a tree without leaves.
#[verifier::external_body]
fn sapling_position(tree: &SaplingTree) -> (position: Option<u64>)
    ensures
        match position {
            None => sapling_leaves(*tree).len() == 0,
            Some(position) => sapling_leaves(*tree).len() == position + 1,
        },
{
    tree.position()
}

/// `NoteCommitmentTree::append_batch` of `zakura-chain`'s `sapling::tree`: more leaves behind those
/// of a tree.
///
/// Claimed: it succeeds exactly where the leaves fit the tree and end before the second subtree
/// boundary behind its last leaf; the tree then has the leaves behind its own, and where it fails
/// it is left as it was.
#[verifier::external_body]
fn sapling_append_batch(
    tree: &mut SaplingTree,
    updates: &[SaplingUpdate],
) -> (appended: Result<(), SaplingTreeError>)
    ensures
        match appended {
            Ok(()) => batch_fits(sapling_leaves(*old(tree)).len(), updates@.len())
                && sapling_leaves(*final(tree)) == sapling_leaves(*old(tree))
                + sapling_updates_view(updates@),
            Err(_) => !batch_fits(sapling_leaves(*old(tree)).len(), updates@.len())
                && sapling_leaves(*final(tree)) == sapling_leaves(*old(tree)),
        },
{
    tree.append_batch(updates).map(|_| ())
}

/// `NoteCommitmentTree::to_rpc_bytes` of `zakura-chain`'s `sapling::tree`: a tree as bytes.
///
/// Claimed: the bytes depend on the leaves alone.
#[verifier::external_body]
pub(crate) fn sapling_to_rpc_bytes(tree: &SaplingTree) -> (bytes: Vec<u8>)
    ensures
        bytes@ == sapling_rpc_bytes(sapling_leaves(*tree)),
{
    tree.to_rpc_bytes()
}

/// The leaves of an Orchard or Ironwood tree, first to last, as 32 bytes each.
pub uninterp spec fn orchard_leaves(tree: OrchardTree) -> Seq<Seq<u8>>;

/// The 32 bytes of an Orchard or Ironwood commitment.
pub uninterp spec fn orchard_update_bytes(update: OrchardUpdate) -> Seq<u8>;

/// What `to_rpc_bytes` makes of an Orchard or Ironwood tree with these leaves.
pub uninterp spec fn orchard_rpc_bytes(leaves: Seq<Seq<u8>>) -> Seq<u8>;

/// The order of the field of Orchard and Ironwood commitments.
pub open spec fn orchard_modulus() -> nat {
    0x40000000000000000000000000000000224698fc094cf91b992d30ed00000001nat
}

pub open spec fn orchard_updates_view(updates: Seq<OrchardUpdate>) -> Seq<Seq<u8>> {
    Seq::new(updates.len(), |i: int| orchard_update_bytes(updates[i]))
}

/// `NoteCommitmentUpdate::zcash_deserialize` of `zakura-chain`'s `orchard::tree`: a commitment from
/// its 32 bytes.
///
/// Claimed: it succeeds exactly where the bytes, read as a little-endian number, lie below the
/// modulus of the field, and the commitment's bytes are then those given.
#[verifier::external_body]
fn orchard_update(bytes: &[u8; 32]) -> (update: Result<OrchardUpdate, SerializationError>)
    ensures
        match update {
            Ok(update) => bytes::le_value(bytes@) < orchard_modulus()
                && orchard_update_bytes(update) == bytes@,
            Err(_) => bytes::le_value(bytes@) >= orchard_modulus(),
        },
{
    OrchardUpdate::zcash_deserialize(Cursor::new(*bytes))
}

/// `NoteCommitmentTree::default` of `zakura-chain`'s `orchard::tree`: a tree without leaves.
#[verifier::external_body]
fn empty_orchard_tree() -> (tree: OrchardTree)
    ensures
        orchard_leaves(tree) == Seq::<Seq<u8>>::empty(),
{
    OrchardTree::default()
}

/// `NoteCommitmentTree::position` of `zakura-chain`'s `orchard::tree`: the place of the last leaf,
/// counted from zero, or nothing in a tree without leaves.
#[verifier::external_body]
fn orchard_position(tree: &OrchardTree) -> (position: Option<u64>)
    ensures
        match position {
            None => orchard_leaves(*tree).len() == 0,
            Some(position) => orchard_leaves(*tree).len() == position + 1,
        },
{
    tree.position()
}

/// `NoteCommitmentTree::append_batch` of `zakura-chain`'s `orchard::tree`: more leaves behind those
/// of a tree.
///
/// Claimed: it succeeds exactly where the leaves fit the tree and end before the second subtree
/// boundary behind its last leaf; the tree then has the leaves behind its own, and where it fails
/// it is left as it was.
#[verifier::external_body]
fn orchard_append_batch(
    tree: &mut OrchardTree,
    updates: &[OrchardUpdate],
) -> (appended: Result<(), OrchardTreeError>)
    ensures
        match appended {
            Ok(()) => batch_fits(orchard_leaves(*old(tree)).len(), updates@.len())
                && orchard_leaves(*final(tree)) == orchard_leaves(*old(tree))
                + orchard_updates_view(updates@),
            Err(_) => !batch_fits(orchard_leaves(*old(tree)).len(), updates@.len())
                && orchard_leaves(*final(tree)) == orchard_leaves(*old(tree)),
        },
{
    tree.append_batch(updates).map(|_| ())
}

/// `NoteCommitmentTree::to_rpc_bytes` of `zakura-chain`'s `orchard::tree`: a tree as bytes.
///
/// Claimed: the bytes depend on the leaves alone.
#[verifier::external_body]
pub(crate) fn orchard_to_rpc_bytes(tree: &OrchardTree) -> (bytes: Vec<u8>)
    ensures
        bytes@ == orchard_rpc_bytes(orchard_leaves(*tree)),
{
    tree.to_rpc_bytes()
}

// ---------------------------------------------------------------------------
// Appending
// ---------------------------------------------------------------------------

/// Why trees cannot go on.
#[derive(Clone, Copy, Debug, PartialEq, Eq)]
pub enum TreeError {
    /// A tree has no room for all commitments.
    Full,
    /// A Sapling commitment is no field element.
    SaplingCommitment,
    /// An Orchard or Ironwood commitment is no field element.
    OrchardCommitment,
    /// A range does not follow the last one.
    UnexpectedRange { expected: u32, actual: u32 },
}

/// How many leaves a tree of `size` leaves still takes.
pub open spec fn room(size: nat) -> nat {
    if size < tree_capacity() {
        (tree_capacity() - size) as nat
    } else {
        0
    }
}

/// Leaves with as many of `commitments` behind them as a tree takes.
pub open spec fn appended(leaves: Seq<Seq<u8>>, commitments: Seq<Seq<u8>>) -> Seq<Seq<u8>> {
    if commitments.len() <= room(leaves.len()) {
        leaves + commitments
    } else {
        leaves + commitments.take(room(leaves.len()) as int)
    }
}

/// `result` and `after` are what appending comes to.
pub open spec fn append_outcome(
    before: Seq<Seq<u8>>,
    commitments: Seq<Seq<u8>>,
    result: Result<(), IndexError>,
    after: Seq<Seq<u8>>,
) -> bool {
    &&& after == appended(before, commitments)
    &&& result == (if commitments.len() <= room(before.len()) {
        Ok::<(), IndexError>(())
    } else {
        Err(IndexError::Tree(TreeError::Full))
    })
}

/// How far the last subtree is filled, by the place of the last leaf.
fn filled_after(position: u64) -> (filled: usize)
    ensures
        filled == (position + 1) % 65536,
{
    ((position % 65536 + 1) % 65536) as usize
}

/// Where a chunk of commitments from `offset` on ends: at the next subtree boundary, or with the
/// last commitment.
fn chunk_end(filled: usize, offset: usize, len: usize) -> (end: usize)
    requires
        filled < 65536,
        offset < len,
    ensures
        offset < end <= len,
        end - offset <= 65536 - filled,
        end < len ==> end - offset == 65536 - filled,
{
    let to_boundary: usize = SUBTREE_LEAVES - filled;
    if len - offset <= to_boundary {
        len
    } else {
        offset + to_boundary
    }
}

/// A chunk up to the next subtree boundary fits wherever there is any room.
proof fn lemma_chunk_fits(size: nat, len: nat)
    requires
        0 < len <= 65536 - size % 65536,
    ensures
        batch_fits(size, len) <==> size < tree_capacity(),
        size < tree_capacity() ==> size + len <= tree_capacity(),
{
    let subtree = size / 65536;
    assert(size == subtree * 65536 + size % 65536);
    assert(size + len <= (subtree + 1) * 65536);
    if size < tree_capacity() {
        assert(subtree + 1 <= 65536);
    }
}

/// Every 32 bytes spell a number below `modulus`.
pub open spec fn all_below(commitments: Seq<Seq<u8>>, modulus: nat) -> bool {
    forall|i: int|
        0 <= i < commitments.len() ==> bytes::le_value(#[trigger] commitments[i]) < modulus
}

/// Appends commitments to a Sapling tree, cut at subtree boundaries.
pub fn append_sapling(tree: &mut SaplingTree, commitments: &[SaplingUpdate]) -> (appended: Result<
    (),
    IndexError,
>)
    ensures
        append_outcome(
            sapling_leaves(*old(tree)),
            sapling_updates_view(commitments@),
            appended,
            sapling_leaves(*final(tree)),
        ),
{
    let ghost before = sapling_leaves(*tree);
    let ghost all = sapling_updates_view(commitments@);
    let mut filled: usize = match sapling_position(tree) {
        None => 0,
        Some(position) => filled_after(position),
    };
    let mut offset: usize = 0;
    assert(before + all.take(0) =~= before);
    while offset < commitments.len()
        invariant
            offset <= commitments@.len(),
            all == sapling_updates_view(commitments@),
            filled == (before.len() + offset) % 65536,
            sapling_leaves(*tree) == before + all.take(offset as int),
            offset > 0 ==> before.len() + offset <= tree_capacity(),
            before == sapling_leaves(*old(tree)),
        decreases commitments@.len() - offset,
    {
        let end: usize = chunk_end(filled, offset, commitments.len());
        let chunk = slice_subrange(commitments, offset, end);
        proof {
            let view = sapling_updates_view(chunk@);
            assert(view =~= all.subrange(offset as int, end as int));
            assert(before + all.take(offset as int) + view =~= before + all.take(end as int));
            lemma_chunk_fits((before.len() + offset) as nat, (end - offset) as nat);
        }
        match sapling_append_batch(tree, chunk) {
            Ok(()) => {},
            Err(_) => {
                return Err(IndexError::Tree(TreeError::Full));
            },
        }
        filled = (filled + (end - offset)) % SUBTREE_LEAVES;
        offset = end;
    }
    assert(all.take(offset as int) =~= all);
    Ok(())
}

/// The commitments that 32 bytes each spell.
fn sapling_updates(commitments: &Vec<[u8; 32]>) -> (updates: Result<Vec<SaplingUpdate>, IndexError>)
    ensures
        match updates {
            Ok(updates) => all_below(parser::hashes_view(commitments@), sapling_modulus())
                && sapling_updates_view(updates@) == parser::hashes_view(commitments@),
            Err(error) => !all_below(parser::hashes_view(commitments@), sapling_modulus()) && error
                == IndexError::Tree(TreeError::SaplingCommitment),
        },
{
    let ghost views = parser::hashes_view(commitments@);
    let mut updates: Vec<SaplingUpdate> = Vec::with_capacity(commitments.len());
    let mut i: usize = 0;
    while i < commitments.len()
        invariant
            i <= commitments@.len(),
            views == parser::hashes_view(commitments@),
            updates@.len() == i,
            forall|j: int|
                0 <= j < i ==> sapling_update_bytes(#[trigger] updates@[j]) == views[j],
            forall|j: int|
                0 <= j < i ==> bytes::le_value(#[trigger] views[j]) < sapling_modulus(),
        decreases commitments@.len() - i,
    {
        match sapling_update(&commitments[i]) {
            Ok(update) => updates.push(update),
            Err(_) => {
                assert(bytes::le_value(views[i as int]) >= sapling_modulus());
                return Err(IndexError::Tree(TreeError::SaplingCommitment));
            },
        }
        i = i + 1;
    }
    assert(sapling_updates_view(updates@) =~= views);
    Ok(updates)
}

/// Appends commitments to an Orchard or Ironwood tree, cut at subtree boundaries.
pub fn append_orchard(tree: &mut OrchardTree, commitments: &[OrchardUpdate]) -> (appended: Result<
    (),
    IndexError,
>)
    ensures
        append_outcome(
            orchard_leaves(*old(tree)),
            orchard_updates_view(commitments@),
            appended,
            orchard_leaves(*final(tree)),
        ),
{
    let ghost before = orchard_leaves(*tree);
    let ghost all = orchard_updates_view(commitments@);
    let mut filled: usize = match orchard_position(tree) {
        None => 0,
        Some(position) => filled_after(position),
    };
    let mut offset: usize = 0;
    assert(before + all.take(0) =~= before);
    while offset < commitments.len()
        invariant
            offset <= commitments@.len(),
            all == orchard_updates_view(commitments@),
            filled == (before.len() + offset) % 65536,
            orchard_leaves(*tree) == before + all.take(offset as int),
            offset > 0 ==> before.len() + offset <= tree_capacity(),
            before == orchard_leaves(*old(tree)),
        decreases commitments@.len() - offset,
    {
        let end: usize = chunk_end(filled, offset, commitments.len());
        let chunk = slice_subrange(commitments, offset, end);
        proof {
            let view = orchard_updates_view(chunk@);
            assert(view =~= all.subrange(offset as int, end as int));
            assert(before + all.take(offset as int) + view =~= before + all.take(end as int));
            lemma_chunk_fits((before.len() + offset) as nat, (end - offset) as nat);
        }
        match orchard_append_batch(tree, chunk) {
            Ok(()) => {},
            Err(_) => {
                return Err(IndexError::Tree(TreeError::Full));
            },
        }
        filled = (filled + (end - offset)) % SUBTREE_LEAVES;
        offset = end;
    }
    assert(all.take(offset as int) =~= all);
    Ok(())
}

/// The commitments that 32 bytes each spell.
fn orchard_updates(commitments: &Vec<[u8; 32]>) -> (updates: Result<Vec<OrchardUpdate>, IndexError>)
    ensures
        match updates {
            Ok(updates) => all_below(parser::hashes_view(commitments@), orchard_modulus())
                && orchard_updates_view(updates@) == parser::hashes_view(commitments@),
            Err(error) => !all_below(parser::hashes_view(commitments@), orchard_modulus()) && error
                == IndexError::Tree(TreeError::OrchardCommitment),
        },
{
    let ghost views = parser::hashes_view(commitments@);
    let mut updates: Vec<OrchardUpdate> = Vec::with_capacity(commitments.len());
    let mut i: usize = 0;
    while i < commitments.len()
        invariant
            i <= commitments@.len(),
            views == parser::hashes_view(commitments@),
            updates@.len() == i,
            forall|j: int|
                0 <= j < i ==> orchard_update_bytes(#[trigger] updates@[j]) == views[j],
            forall|j: int|
                0 <= j < i ==> bytes::le_value(#[trigger] views[j]) < orchard_modulus(),
        decreases commitments@.len() - i,
    {
        match orchard_update(&commitments[i]) {
            Ok(update) => updates.push(update),
            Err(_) => {
                assert(bytes::le_value(views[i as int]) >= orchard_modulus());
                return Err(IndexError::Tree(TreeError::OrchardCommitment));
            },
        }
        i = i + 1;
    }
    assert(orchard_updates_view(updates@) =~= views);
    Ok(updates)
}

/// Appending in two parts comes to the same as appending all at once.
pub proof fn law_append_in_parts(
    leaves: Seq<Seq<u8>>,
    first: Seq<Seq<u8>>,
    second: Seq<Seq<u8>>,
)
    ensures
        appended(appended(leaves, first), second) == appended(leaves, first + second),
{
    let taken = room(leaves.len());
    if first.len() <= taken {
        if first.len() + second.len() <= taken {
            assert(leaves + first + second =~= leaves + (first + second));
        } else {
            let rest = room(leaves.len() + first.len());
            assert(leaves + first + second.take(rest as int) =~= leaves + (first + second).take(
                taken as int,
            ));
        }
    } else {
        let full = leaves + first.take(taken as int);
        assert(full + second.take(0) =~= full);
        assert((first + second).take(taken as int) =~= first.take(taken as int));
        assert(second.len() == 0 ==> full + second =~= full);
    }
}

// ---------------------------------------------------------------------------
// Commitments of blocks
// ---------------------------------------------------------------------------

/// Commitments of a transaction's Sapling outputs.
pub open spec fn sapling_in_transaction(transaction: TransactionView) -> Seq<Seq<u8>> {
    transaction.sapling_outputs.map_values(|output: OutputView| output.cmu)
}

/// Commitments of a transaction's Orchard or Ironwood actions.
pub open spec fn actions_in_transaction(transaction: TransactionView, ironwood: bool) -> Seq<
    Seq<u8>,
> {
    if ironwood {
        transaction.ironwood_actions.map_values(|action: ActionView| action.commitment)
    } else {
        transaction.orchard_actions.map_values(|action: ActionView| action.commitment)
    }
}

pub open spec fn sapling_in_block(block: RecordView) -> Seq<Seq<u8>> {
    block.transactions.map_values(
        |transaction: TransactionView| sapling_in_transaction(transaction),
    ).flatten()
}

pub open spec fn actions_in_block(block: RecordView, ironwood: bool) -> Seq<Seq<u8>> {
    block.transactions.map_values(
        |transaction: TransactionView| actions_in_transaction(transaction, ironwood),
    ).flatten()
}

/// Sapling commitments of blocks, in chain order.
pub open spec fn sapling_commitments(blocks: Seq<RecordView>) -> Seq<Seq<u8>> {
    blocks.map_values(|block: RecordView| sapling_in_block(block)).flatten()
}

/// Orchard or Ironwood commitments of blocks, in chain order.
pub open spec fn action_commitments(blocks: Seq<RecordView>, ironwood: bool) -> Seq<Seq<u8>> {
    blocks.map_values(|block: RecordView| actions_in_block(block, ironwood)).flatten()
}

fn push_sapling_of_transaction(commitments: &mut Vec<[u8; 32]>, transaction: &CompactTransaction)
    ensures
        parser::hashes_view(final(commitments)@) == parser::hashes_view(old(commitments)@)
            + sapling_in_transaction(transaction@),
{
    let ghost before = parser::hashes_view(commitments@);
    let ghost all = sapling_in_transaction(transaction@);
    let mut i: usize = 0;
    assert(before + all.take(0) =~= before);
    while i < transaction.sapling_outputs.len()
        invariant
            i <= transaction.sapling_outputs@.len(),
            all == sapling_in_transaction(transaction@),
            parser::hashes_view(commitments@) == before + all.take(i as int),
        decreases transaction.sapling_outputs@.len() - i,
    {
        let ghost done = parser::hashes_view(commitments@);
        commitments.push(transaction.sapling_outputs[i].cmu);
        proof {
            assert(parser::hashes_view(commitments@) =~= done.push(all[i as int]));
            assert(before + all.take(i as int).push(all[i as int]) =~= (before + all.take(
                i as int,
            )).push(all[i as int]));
            assert(all.take(i + 1) =~= all.take(i as int).push(all[i as int]));
        }
        i = i + 1;
    }
    assert(all.take(i as int) =~= all);
}

fn push_actions_of_transaction(
    commitments: &mut Vec<[u8; 32]>,
    transaction: &CompactTransaction,
    ironwood: bool,
)
    ensures
        parser::hashes_view(final(commitments)@) == parser::hashes_view(old(commitments)@)
            + actions_in_transaction(transaction@, ironwood),
{
    let ghost before = parser::hashes_view(commitments@);
    let ghost all = actions_in_transaction(transaction@, ironwood);
    let actions = if ironwood {
        &transaction.ironwood_actions
    } else {
        &transaction.orchard_actions
    };
    let mut i: usize = 0;
    assert(before + all.take(0) =~= before);
    while i < actions.len()
        invariant
            i <= actions@.len(),
            all.len() == actions@.len(),
            forall|j: int| 0 <= j < all.len() ==> #[trigger] all[j] == actions@[j].commitment@,
            parser::hashes_view(commitments@) == before + all.take(i as int),
        decreases actions@.len() - i,
    {
        let ghost done = parser::hashes_view(commitments@);
        commitments.push(actions[i].commitment);
        proof {
            assert(parser::hashes_view(commitments@) =~= done.push(all[i as int]));
            assert(before + all.take(i as int).push(all[i as int]) =~= (before + all.take(
                i as int,
            )).push(all[i as int]));
            assert(all.take(i + 1) =~= all.take(i as int).push(all[i as int]));
        }
        i = i + 1;
    }
    assert(all.take(i as int) =~= all);
}

/// The bytes of the blocks' Sapling commitments.
fn sapling_bytes(blocks: &[CompactBlockRecord]) -> (commitments: Vec<[u8; 32]>)
    ensures
        parser::hashes_view(commitments@) == sapling_commitments(codec::records_view(blocks@)),
{
    let ghost views = codec::records_view(blocks@).map_values(
        |block: RecordView| sapling_in_block(block),
    );
    let mut commitments: Vec<[u8; 32]> = Vec::new();
    let mut i: usize = 0;
    assert(parser::hashes_view(commitments@) =~= views.take(0).flatten());
    while i < blocks.len()
        invariant
            i <= blocks@.len(),
            views == codec::records_view(blocks@).map_values(
                |block: RecordView| sapling_in_block(block),
            ),
            parser::hashes_view(commitments@) == views.take(i as int).flatten(),
        decreases blocks@.len() - i,
    {
        let block = &blocks[i];
        let ghost before = parser::hashes_view(commitments@);
        let ghost inner = block@.transactions.map_values(
            |transaction: TransactionView| sapling_in_transaction(transaction),
        );
        let mut j: usize = 0;
        assert(before + inner.take(0).flatten() =~= before);
        while j < block.transactions.len()
            invariant
                j <= block.transactions@.len(),
                inner == block@.transactions.map_values(
                    |transaction: TransactionView| sapling_in_transaction(transaction),
                ),
                parser::hashes_view(commitments@) == before + inner.take(j as int).flatten(),
            decreases block.transactions@.len() - j,
        {
            push_sapling_of_transaction(&mut commitments, &block.transactions[j]);
            proof {
                assert(inner[j as int] == sapling_in_transaction(
                    block.transactions@[j as int]@,
                ));
                inner.take(j as int).lemma_flatten_push(inner[j as int]);
                assert(inner.take(j + 1) =~= inner.take(j as int).push(inner[j as int]));
                assert(parser::hashes_view(commitments@) =~= before + inner.take(
                    j + 1,
                ).flatten());
            }
            j = j + 1;
        }
        proof {
            assert(inner.take(j as int) =~= inner);
            assert(views[i as int] == sapling_in_block(block@));
            views.take(i as int).lemma_flatten_push(views[i as int]);
            assert(views.take(i + 1) =~= views.take(i as int).push(views[i as int]));
        }
        i = i + 1;
    }
    assert(views.take(i as int) =~= views);
    commitments
}

/// The bytes of the blocks' Orchard or Ironwood commitments.
fn action_bytes(blocks: &[CompactBlockRecord], ironwood: bool) -> (commitments: Vec<[u8; 32]>)
    ensures
        parser::hashes_view(commitments@) == action_commitments(
            codec::records_view(blocks@),
            ironwood,
        ),
{
    let ghost views = codec::records_view(blocks@).map_values(
        |block: RecordView| actions_in_block(block, ironwood),
    );
    let mut commitments: Vec<[u8; 32]> = Vec::new();
    let mut i: usize = 0;
    assert(parser::hashes_view(commitments@) =~= views.take(0).flatten());
    while i < blocks.len()
        invariant
            i <= blocks@.len(),
            views == codec::records_view(blocks@).map_values(
                |block: RecordView| actions_in_block(block, ironwood),
            ),
            parser::hashes_view(commitments@) == views.take(i as int).flatten(),
        decreases blocks@.len() - i,
    {
        let block = &blocks[i];
        let ghost before = parser::hashes_view(commitments@);
        let ghost inner = block@.transactions.map_values(
            |transaction: TransactionView| actions_in_transaction(transaction, ironwood),
        );
        let mut j: usize = 0;
        assert(before + inner.take(0).flatten() =~= before);
        while j < block.transactions.len()
            invariant
                j <= block.transactions@.len(),
                inner == block@.transactions.map_values(
                    |transaction: TransactionView| actions_in_transaction(transaction, ironwood),
                ),
                parser::hashes_view(commitments@) == before + inner.take(j as int).flatten(),
            decreases block.transactions@.len() - j,
        {
            push_actions_of_transaction(&mut commitments, &block.transactions[j], ironwood);
            proof {
                assert(inner[j as int] == actions_in_transaction(
                    block.transactions@[j as int]@,
                    ironwood,
                ));
                inner.take(j as int).lemma_flatten_push(inner[j as int]);
                assert(inner.take(j + 1) =~= inner.take(j as int).push(inner[j as int]));
                assert(parser::hashes_view(commitments@) =~= before + inner.take(
                    j + 1,
                ).flatten());
            }
            j = j + 1;
        }
        proof {
            assert(inner.take(j as int) =~= inner);
            assert(views[i as int] == actions_in_block(block@, ironwood));
            views.take(i as int).lemma_flatten_push(views[i as int]);
            assert(views.take(i + 1) =~= views.take(i as int).push(views[i as int]));
        }
        i = i + 1;
    }
    assert(views.take(i as int) =~= views);
    commitments
}

/// The blocks' Orchard or Ironwood commitments.
pub fn commitments(blocks: &[CompactBlockRecord], ironwood: bool) -> (updates: Result<
    Vec<OrchardUpdate>,
    IndexError,
>)
    ensures
        ({
            let all = action_commitments(codec::records_view(blocks@), ironwood);
            match updates {
                Ok(updates) => all_below(all, orchard_modulus()) && orchard_updates_view(updates@)
                    == all,
                Err(error) => !all_below(all, orchard_modulus()) && error == IndexError::Tree(
                    TreeError::OrchardCommitment,
                ),
            }
        }),
{
    orchard_updates(&action_bytes(blocks, ironwood))
}

/// What appending the commitments of blocks to one tree of `size` leaves returns.
pub open spec fn pool_result(
    size: nat,
    commitments: Seq<Seq<u8>>,
    modulus: nat,
    invalid: TreeError,
) -> Result<(), IndexError> {
    if !all_below(commitments, modulus) {
        Err(IndexError::Tree(invalid))
    } else if commitments.len() > room(size) {
        Err(IndexError::Tree(TreeError::Full))
    } else {
        Ok(())
    }
}

/// The leaves of a tree once the commitments of blocks have been appended: none of them is where
/// one of them is no field element.
pub open spec fn pool_leaves(
    before: Seq<Seq<u8>>,
    commitments: Seq<Seq<u8>>,
    modulus: nat,
) -> Seq<Seq<u8>> {
    if all_below(commitments, modulus) {
        appended(before, commitments)
    } else {
        before
    }
}

/// `result` and `after` are what appending Sapling commitments of blocks comes to.
pub open spec fn sapling_outcome(
    before: Seq<Seq<u8>>,
    blocks: Seq<RecordView>,
    result: Result<(), IndexError>,
    after: Seq<Seq<u8>>,
) -> bool {
    let commitments = sapling_commitments(blocks);
    &&& result == pool_result(
        before.len(),
        commitments,
        sapling_modulus(),
        TreeError::SaplingCommitment,
    )
    &&& after == pool_leaves(before, commitments, sapling_modulus())
}

/// `result` and `after` are what appending Orchard or Ironwood commitments of blocks comes to.
pub open spec fn action_outcome(
    before: Seq<Seq<u8>>,
    blocks: Seq<RecordView>,
    ironwood: bool,
    result: Result<(), IndexError>,
    after: Seq<Seq<u8>>,
) -> bool {
    let commitments = action_commitments(blocks, ironwood);
    &&& result == pool_result(
        before.len(),
        commitments,
        orchard_modulus(),
        TreeError::OrchardCommitment,
    )
    &&& after == pool_leaves(before, commitments, orchard_modulus())
}

/// Appends the blocks' Sapling commitments.
fn append_sapling_blocks(
    tree: &mut SaplingTree,
    blocks: &[CompactBlockRecord],
) -> (appended: Result<(), IndexError>)
    ensures
        sapling_outcome(
            sapling_leaves(*old(tree)),
            codec::records_view(blocks@),
            appended,
            sapling_leaves(*final(tree)),
        ),
{
    let updates = sapling_updates(&sapling_bytes(blocks))?;
    append_sapling(tree, updates.as_slice())
}

/// Appends the blocks' Orchard or Ironwood commitments.
fn append_orchard_blocks(
    tree: &mut OrchardTree,
    blocks: &[CompactBlockRecord],
    ironwood: bool,
) -> (appended: Result<(), IndexError>)
    ensures
        action_outcome(
            orchard_leaves(*old(tree)),
            codec::records_view(blocks@),
            ironwood,
            appended,
            orchard_leaves(*final(tree)),
        ),
{
    let updates = commitments(blocks, ironwood)?;
    append_orchard(tree, updates.as_slice())
}

/// `rayon::join`: appends to the three trees at the same time.
///
/// Claimed: `join` runs both of its closures to their ends and returns what each of them returned,
/// so each tree and each result is what its own append makes it.
#[verifier::external_body]
fn join_appends(
    sapling: &mut SaplingTree,
    orchard: &mut OrchardTree,
    ironwood: &mut OrchardTree,
    blocks: &[CompactBlockRecord],
) -> (appended: (Result<(), IndexError>, Result<(), IndexError>, Result<(), IndexError>))
    ensures
        sapling_outcome(
            sapling_leaves(*old(sapling)),
            codec::records_view(blocks@),
            appended.0,
            sapling_leaves(*final(sapling)),
        ),
        action_outcome(
            orchard_leaves(*old(orchard)),
            codec::records_view(blocks@),
            false,
            appended.1,
            orchard_leaves(*final(orchard)),
        ),
        action_outcome(
            orchard_leaves(*old(ironwood)),
            codec::records_view(blocks@),
            true,
            appended.2,
            orchard_leaves(*final(ironwood)),
        ),
{
    let (sapling, (orchard, ironwood)) = rayon::join(
        || append_sapling_blocks(sapling, blocks),
        || {
            rayon::join(
                || append_orchard_blocks(orchard, blocks, false),
                || append_orchard_blocks(ironwood, blocks, true),
            )
        },
    );
    (sapling, orchard, ironwood)
}

// ---------------------------------------------------------------------------
// Anchors
// ---------------------------------------------------------------------------

/// A tree checkpoint at the end of a sealed range.
#[derive(Debug)]
pub struct Anchor {
    pub hash: [u8; 32],
    pub sapling: SaplingTree,
    pub orchard: OrchardTree,
    pub ironwood: OrchardTree,
}

/// An [`Anchor`] by the leaves of its trees.
#[verifier::ext_equal]
pub struct AnchorView {
    pub hash: Seq<u8>,
    pub sapling: Seq<Seq<u8>>,
    pub orchard: Seq<Seq<u8>>,
    pub ironwood: Seq<Seq<u8>>,
}

impl View for Anchor {
    type V = AnchorView;

    open spec fn view(&self) -> AnchorView {
        AnchorView {
            hash: self.hash@,
            sapling: sapling_leaves(self.sapling),
            orchard: orchard_leaves(self.orchard),
            ironwood: orchard_leaves(self.ironwood),
        }
    }
}

/// Locally derived commitment trees ready for a `TreeState` RPC response.
#[derive(Clone, Debug, PartialEq, Eq)]
pub struct TreeStateResult {
    pub sapling: Vec<u8>,
    pub orchard: Vec<u8>,
    pub ironwood: Vec<u8>,
}

/// The anchor in front of the first block.
pub open spec fn empty_anchor() -> AnchorView {
    AnchorView {
        hash: Seq::new(32, |i: int| 0u8),
        sapling: Seq::empty(),
        orchard: Seq::empty(),
        ironwood: Seq::empty(),
    }
}

impl Default for Anchor {
    fn default() -> (anchor: Self)
        ensures
            anchor@ == empty_anchor(),
    {
        let anchor = Anchor {
            hash: [0u8; 32],
            sapling: empty_sapling_tree(),
            orchard: empty_orchard_tree(),
            ironwood: empty_orchard_tree(),
        };
        assert(anchor@ =~= empty_anchor());
        anchor
    }
}

/// An anchor once blocks have been appended: each tree goes as far as it can.
pub open spec fn anchor_after(before: AnchorView, blocks: Seq<RecordView>) -> AnchorView {
    AnchorView {
        hash: before.hash,
        sapling: pool_leaves(before.sapling, sapling_commitments(blocks), sapling_modulus()),
        orchard: pool_leaves(before.orchard, action_commitments(blocks, false), orchard_modulus()),
        ironwood: pool_leaves(before.ironwood, action_commitments(blocks, true), orchard_modulus()),
    }
}

/// What appending blocks to an anchor returns: the error of the first tree that cannot go on.
pub open spec fn anchor_result(before: AnchorView, blocks: Seq<RecordView>) -> Result<
    (),
    IndexError,
> {
    let sapling = pool_result(
        before.sapling.len(),
        sapling_commitments(blocks),
        sapling_modulus(),
        TreeError::SaplingCommitment,
    );
    let orchard = pool_result(
        before.orchard.len(),
        action_commitments(blocks, false),
        orchard_modulus(),
        TreeError::OrchardCommitment,
    );
    let ironwood = pool_result(
        before.ironwood.len(),
        action_commitments(blocks, true),
        orchard_modulus(),
        TreeError::OrchardCommitment,
    );
    if sapling is Err {
        sapling
    } else if orchard is Err {
        orchard
    } else {
        ironwood
    }
}

impl Anchor {
    /// Appends the commitments of blocks to the trees.
    pub fn append_blocks(&mut self, blocks: &[CompactBlockRecord]) -> (appended: Result<
        (),
        IndexError,
    >)
        ensures
            appended == anchor_result(old(self)@, codec::records_view(blocks@)),
            final(self)@ == anchor_after(old(self)@, codec::records_view(blocks@)),
    {
        let (sapling, orchard, ironwood) = join_appends(
            &mut self.sapling,
            &mut self.orchard,
            &mut self.ironwood,
            blocks,
        );
        sapling?;
        orchard?;
        ironwood
    }

    /// The block at which the range ends.
    pub fn hash(&self) -> (hash: [u8; 32])
        ensures
            hash == self.hash,
    {
        self.hash
    }

    /// The trees as a `TreeState` RPC response has them.
    pub fn into_result(self) -> (result: TreeStateResult)
        ensures
            result.sapling@ == sapling_rpc_bytes(self@.sapling),
            result.orchard@ == orchard_rpc_bytes(self@.orchard),
            result.ironwood@ == orchard_rpc_bytes(self@.ironwood),
    {
        TreeStateResult {
            sapling: sapling_to_rpc_bytes(&self.sapling),
            orchard: orchard_to_rpc_bytes(&self.orchard),
            ironwood: orchard_to_rpc_bytes(&self.ironwood),
        }
    }
}

impl TreeError {
    /// The error in words.
    pub open spec fn words(self) -> Seq<char> {
        match self {
            TreeError::Full => "The note commitment tree is full"@,
            TreeError::SaplingCommitment =>
                "parse error: invalid ExtractedNoteCommitment bytes"@,
            TreeError::OrchardCommitment =>
                "parse error: Invalid pallas::Base, input not canonical"@,
            TreeError::UnexpectedRange { expected, actual } => "expected range "@
                + text::decimal(expected as nat) + ", got "@ + text::decimal(actual as nat),
        }
    }

    /// The error in words.
    pub fn message(&self) -> (message: String)
        ensures
            message@ == self.words(),
    {
        match self {
            TreeError::Full => String::from_str("The note commitment tree is full"),
            TreeError::SaplingCommitment => String::from_str(
                "parse error: invalid ExtractedNoteCommitment bytes",
            ),
            TreeError::OrchardCommitment => String::from_str(
                "parse error: Invalid pallas::Base, input not canonical",
            ),
            TreeError::UnexpectedRange { expected, actual } => text::text_with_number(
                "expected range ",
                *expected as u64,
                ", got ",
            ).concat(text::number_text(*actual as u64).as_str()),
        }
    }
}

// ---------------------------------------------------------------------------
// The worker
// ---------------------------------------------------------------------------

/// Trees that follow the sealed ranges of an index: the last anchor, its height, what has been
/// done, and why it went no further.
#[derive(Debug)]
pub struct Worker {
    anchor: Anchor,
    anchor_height: Option<u32>,
    jobs: u64,
    blocks: u64,
    error: Option<String>,
}

/// A [`Worker`] with its fields in the open.
#[verifier::ext_equal]
pub struct WorkerView {
    pub anchor: AnchorView,
    pub anchor_height: Option<u32>,
    pub jobs: u64,
    pub blocks: u64,
    pub error: Option<Seq<char>>,
}

impl View for Worker {
    type V = WorkerView;

    closed spec fn view(&self) -> WorkerView {
        WorkerView {
            anchor: self.anchor@,
            anchor_height: self.anchor_height,
            jobs: self.jobs,
            blocks: self.blocks,
            error: match self.error {
                None => None,
                Some(error) => Some(error@),
            },
        }
    }
}

/// What a worker has done: ranges taken, and blocks in them.
#[derive(Clone, Copy, Debug, PartialEq, Eq)]
pub struct TreeCounts {
    pub jobs: u64,
    pub blocks: u64,
}

/// What a worker does with a range of blocks.
pub enum RangeStep {
    /// The range is refused.
    Refuse(IndexError),
    /// The trees are past the range already.
    Skip,
    /// The range, which ends at this height, is next.
    Append(u32),
}

/// Decides on a range of blocks, by the height of the last anchor.
pub open spec fn range_step(anchor_height: Option<u32>, blocks: Seq<RecordView>) -> RangeStep {
    let start = blocks[0].height;
    let end = blocks.last().height;
    let expected: u32 = match anchor_height {
        None => 0,
        Some(height) => (height + 1) as u32,
    };
    if blocks.len() == 0 {
        RangeStep::Refuse(IndexError::Metadata)
    } else if blocks.len() != RANGE_SIZE || end != start + 999 {
        RangeStep::Refuse(IndexError::IncompleteRange { start })
    } else if anchor_height matches Some(height) && end <= height {
        RangeStep::Skip
    } else if start != expected {
        RangeStep::Refuse(
            IndexError::Tree(TreeError::UnexpectedRange { expected, actual: start }),
        )
    } else {
        RangeStep::Append(end)
    }
}

impl Worker {
    /// A worker that goes on from an anchor.
    pub fn new(anchor_height: Option<u32>, anchor: Anchor) -> (worker: Self)
        ensures
            worker@ == (WorkerView {
                anchor: anchor@,
                anchor_height,
                jobs: 0,
                blocks: 0,
                error: None,
            }),
    {
        Worker { anchor, anchor_height, jobs: 0, blocks: 0, error: None }
    }

    /// Notes why the worker can go no further.
    pub fn fail(&mut self, error: String)
        ensures
            final(self)@ == (WorkerView { error: Some(error@), ..old(self)@ }),
    {
        self.error = Some(error);
    }

    /// Whether the worker takes ranges: one that has failed ignores them until it is reset.
    pub fn takes_ranges(&self) -> (takes: bool)
        ensures
            takes == (self@.error is None),
    {
        self.error.is_none()
    }

    /// What has been done, or why the worker went no further.
    pub fn report(&self) -> (report: Result<TreeCounts, String>)
        ensures
            match (self@.error, report) {
                (None, Ok(counts)) => counts == (TreeCounts {
                    jobs: self@.jobs,
                    blocks: self@.blocks,
                }),
                (Some(error), Err(actual)) => actual@ == error,
                _ => false,
            },
    {
        match &self.error {
            None => Ok(TreeCounts { jobs: self.jobs, blocks: self.blocks }),
            Some(error) => Err(error.clone()),
        }
    }

    /// Goes back in front of the range at `start`, past any failure: the height of the anchor to go
    /// on from, if there can be one.
    pub fn begin_reset(&mut self, start: u32) -> (height: Option<u32>)
        ensures
            height == (if start == 0 {
                None
            } else {
                Some((start - 1) as u32)
            }),
            final(self)@ == (WorkerView { anchor_height: height, error: None, ..old(self)@ }),
    {
        self.error = None;
        self.anchor_height = start.checked_sub(1);
        self.anchor_height
    }

    /// Goes on from a stored anchor, or from empty trees.
    pub fn finish_reset(&mut self, stored: Option<Anchor>)
        ensures
            final(self)@ == (WorkerView {
                anchor: match stored {
                    None => empty_anchor(),
                    Some(anchor) => anchor@,
                },
                ..old(self)@
            }),
    {
        self.anchor = match stored {
            Some(anchor) => anchor,
            None => Anchor::default(),
        };
    }

    /// Takes a complete sealed range: the height under which the anchor is to be stored, or nothing
    /// where the trees are past the range already.
    pub fn range(&mut self, blocks: &[CompactBlockRecord]) -> (taken: Result<
        Option<u32>,
        IndexError,
    >)
        requires
            blocks@.len() == RANGE_SIZE ==> blocks@[0].height + RANGE_SIZE <= u32::MAX,
        ensures
            ({
                let views = codec::records_view(blocks@);
                let before = old(self)@;
                let after = final(self)@;
                match range_step(before.anchor_height, views) {
                    RangeStep::Refuse(error) => taken == Err::<Option<u32>, IndexError>(error)
                        && after == before,
                    RangeStep::Skip => taken == Ok::<Option<u32>, IndexError>(None) && after
                        == before,
                    RangeStep::Append(end) => match anchor_result(before.anchor, views) {
                        Err(error) => taken == Err::<Option<u32>, IndexError>(error) && after == (
                        WorkerView { anchor: anchor_after(before.anchor, views), ..before }),
                        Ok(()) => taken == Ok::<Option<u32>, IndexError>(Some(end)) && after == (
                        WorkerView {
                            anchor: AnchorView {
                                hash: views.last().hash,
                                ..anchor_after(before.anchor, views)
                            },
                            ..before
                        }),
                    },
                }
            }),
    {
        let ghost views = codec::records_view(blocks@);
        if blocks.len() == 0 {
            return Err(IndexError::Metadata);
        }
        let start: u32 = blocks[0].height;
        let last = &blocks[blocks.len() - 1];
        let end: u32 = last.height;
        proof {
            assert(views[0].height == start);
            assert(views.last() == last@);
        }
        if blocks.len() != RANGE_SIZE as usize || end != start + RANGE_SIZE - 1 {
            return Err(IndexError::IncompleteRange { start });
        }
        let expected: u32 = match self.anchor_height {
            None => 0,
            Some(height) => {
                if end <= height {
                    return Ok(None);
                }
                height + 1
            },
        };
        if start != expected {
            return Err(
                IndexError::Tree(TreeError::UnexpectedRange { expected, actual: start }),
            );
        }
        match self.anchor.append_blocks(blocks) {
            Ok(()) => {},
            Err(error) => return Err(error),
        }
        self.anchor.hash = last.hash;
        Ok(Some(end))
    }

    /// Notes that the anchor has been stored under `end`.
    pub fn stored(&mut self, end: u32)
        requires
            old(self)@.jobs < u64::MAX,
            old(self)@.blocks + RANGE_SIZE <= u64::MAX,
        ensures
            final(self)@ == (WorkerView {
                anchor: old(self)@.anchor,
                anchor_height: Some(end),
                jobs: (old(self)@.jobs + 1) as u64,
                blocks: (old(self)@.blocks + RANGE_SIZE) as u64,
                error: old(self)@.error,
            }),
    {
        self.anchor_height = Some(end);
        self.jobs = self.jobs + 1;
        self.blocks = self.blocks + RANGE_SIZE as u64;
    }

    /// The anchor to store.
    pub fn anchor(&self) -> (anchor: &Anchor)
        ensures
            anchor@ == self@.anchor,
    {
        &self.anchor
    }

    /// The height of the last anchor.
    pub fn anchor_height(&self) -> (height: Option<u32>)
        ensures
            height == self@.anchor_height,
    {
        self.anchor_height
    }
}

// ---------------------------------------------------------------------------
// Laws
// ---------------------------------------------------------------------------

proof fn lemma_commitments_concat(first: Seq<RecordView>, second: Seq<RecordView>)
    ensures
        sapling_commitments(first + second) == sapling_commitments(first) + sapling_commitments(
            second,
        ),
        forall|ironwood: bool| #[trigger]
            action_commitments(first + second, ironwood) == action_commitments(first, ironwood)
                + action_commitments(second, ironwood),
{
    let sapling = |block: RecordView| sapling_in_block(block);
    vstd::seq_lib::lemma_flatten_concat(first.map_values(sapling), second.map_values(sapling));
    assert((first + second).map_values(sapling) =~= first.map_values(sapling) + second.map_values(
        sapling,
    ));
    assert forall|ironwood: bool| #[trigger]
        action_commitments(first + second, ironwood) == action_commitments(first, ironwood)
            + action_commitments(second, ironwood) by {
        let actions = |block: RecordView| actions_in_block(block, ironwood);
        vstd::seq_lib::lemma_flatten_concat(
            first.map_values(actions),
            second.map_values(actions),
        );
        assert((first + second).map_values(actions) =~= first.map_values(actions)
            + second.map_values(actions));
    }
}

proof fn lemma_below_in_parts(first: Seq<Seq<u8>>, second: Seq<Seq<u8>>, modulus: nat)
    requires
        all_below(first + second, modulus),
    ensures
        all_below(first, modulus),
        all_below(second, modulus),
{
    assert forall|i: int| 0 <= i < first.len() implies bytes::le_value(#[trigger] first[i])
        < modulus by {
        assert((first + second)[i] == first[i]);
    }
    assert forall|i: int| 0 <= i < second.len() implies bytes::le_value(#[trigger] second[i])
        < modulus by {
        assert((first + second)[first.len() + i] == second[i]);
    }
}

proof fn lemma_pool_in_parts(
    leaves: Seq<Seq<u8>>,
    first: Seq<Seq<u8>>,
    second: Seq<Seq<u8>>,
    modulus: nat,
)
    requires
        all_below(first + second, modulus),
    ensures
        pool_leaves(pool_leaves(leaves, first, modulus), second, modulus) == pool_leaves(
            leaves,
            first + second,
            modulus,
        ),
{
    law_append_in_parts(leaves, first, second);
    lemma_below_in_parts(first, second, modulus);
}

/// Blocks whose commitments are field elements come to the same trees whether they are appended in
/// one batch or in two.
pub proof fn law_blocks_in_parts(
    anchor: AnchorView,
    first: Seq<RecordView>,
    second: Seq<RecordView>,
)
    requires
        all_below(sapling_commitments(first + second), sapling_modulus()),
        all_below(action_commitments(first + second, false), orchard_modulus()),
        all_below(action_commitments(first + second, true), orchard_modulus()),
    ensures
        anchor_after(anchor_after(anchor, first), second) == anchor_after(anchor, first + second),
{
    lemma_commitments_concat(first, second);
    lemma_pool_in_parts(
        anchor.sapling,
        sapling_commitments(first),
        sapling_commitments(second),
        sapling_modulus(),
    );
    lemma_pool_in_parts(
        anchor.orchard,
        action_commitments(first, false),
        action_commitments(second, false),
        orchard_modulus(),
    );
    lemma_pool_in_parts(
        anchor.ironwood,
        action_commitments(first, true),
        action_commitments(second, true),
        orchard_modulus(),
    );
}

proof fn lemma_count_in_transactions(transactions: Seq<TransactionView>)
    ensures
        transactions.map_values(
            |transaction: TransactionView| sapling_in_transaction(transaction),
        ).flatten().len() == parser::sapling_total(transactions),
        transactions.map_values(
            |transaction: TransactionView| actions_in_transaction(transaction, false),
        ).flatten().len() == parser::orchard_total(transactions),
        transactions.map_values(
            |transaction: TransactionView| actions_in_transaction(transaction, true),
        ).flatten().len() == parser::ironwood_total(transactions),
    decreases transactions.len(),
{
    let sapling = |transaction: TransactionView| sapling_in_transaction(transaction);
    let orchard = |transaction: TransactionView| actions_in_transaction(transaction, false);
    let ironwood = |transaction: TransactionView| actions_in_transaction(transaction, true);
    if transactions.len() > 0 {
        let fewer = transactions.drop_last();
        let last = transactions.last();
        lemma_count_in_transactions(fewer);
        fewer.map_values(sapling).lemma_flatten_push(sapling_in_transaction(last));
        fewer.map_values(orchard).lemma_flatten_push(actions_in_transaction(last, false));
        fewer.map_values(ironwood).lemma_flatten_push(actions_in_transaction(last, true));
        assert(transactions.map_values(sapling) =~= fewer.map_values(sapling).push(
            sapling_in_transaction(last),
        ));
        assert(transactions.map_values(orchard) =~= fewer.map_values(orchard).push(
            actions_in_transaction(last, false),
        ));
        assert(transactions.map_values(ironwood) =~= fewer.map_values(ironwood).push(
            actions_in_transaction(last, true),
        ));
    }
}

/// A block adds as many leaves to each tree as the additions of its record say.
pub proof fn law_leaves_match_additions(block: RecordView)
    ensures
        sapling_in_block(block).len() == parser::sapling_total(block.transactions),
        actions_in_block(block, false).len() == parser::orchard_total(block.transactions),
        actions_in_block(block, true).len() == parser::ironwood_total(block.transactions),
{
    lemma_count_in_transactions(block.transactions);
}

// ---------------------------------------------------------------------------
// Queues of ranges
// ---------------------------------------------------------------------------

/// A worker, with the anchors that have been stored, by the heights at which their ranges end.
#[verifier::ext_equal]
pub struct QueueView {
    pub worker: WorkerView,
    pub anchors: Map<u32, AnchorView>,
}

/// A queue in front of the first range.
pub open spec fn empty_queue() -> QueueView {
    QueueView {
        worker: WorkerView {
            anchor: empty_anchor(),
            anchor_height: None,
            jobs: 0,
            blocks: 0,
            error: None,
        },
        anchors: Map::empty(),
    }
}

/// A queue once its worker has been handed a range, and has stored the anchor behind it.
pub open spec fn after_range(queue: QueueView, blocks: Seq<RecordView>) -> QueueView {
    let worker = queue.worker;
    if worker.error is Some {
        queue
    } else {
        match range_step(worker.anchor_height, blocks) {
            RangeStep::Refuse(error) => QueueView {
                worker: WorkerView { error: Some(error.words()), ..worker },
                ..queue
            },
            RangeStep::Skip => queue,
            RangeStep::Append(end) => {
                let trees = anchor_after(worker.anchor, blocks);
                match anchor_result(worker.anchor, blocks) {
                    Err(error) => QueueView {
                        worker: WorkerView { anchor: trees, error: Some(error.words()), ..worker },
                        ..queue
                    },
                    Ok(()) => {
                        let anchor = AnchorView { hash: blocks.last().hash, ..trees };
                        QueueView {
                            worker: WorkerView {
                                anchor,
                                anchor_height: Some(end),
                                jobs: (worker.jobs + 1) as u64,
                                blocks: (worker.blocks + RANGE_SIZE) as u64,
                                error: None,
                            },
                            anchors: queue.anchors.insert(end, anchor),
                        }
                    },
                }
            },
        }
    }
}

/// A queue once its worker has gone back in front of the range at `start`.
pub open spec fn after_reset(queue: QueueView, start: u32) -> QueueView {
    let height: Option<u32> = if start == 0 {
        None
    } else {
        Some((start - 1) as u32)
    };
    QueueView {
        worker: WorkerView {
            anchor: match height {
                Some(height) => if queue.anchors.dom().contains(height) {
                    queue.anchors[height]
                } else {
                    empty_anchor()
                },
                None => empty_anchor(),
            },
            anchor_height: height,
            error: None,
            ..queue.worker
        },
        ..queue
    }
}

/// A queue once its worker has been handed ranges, one after the other.
pub open spec fn after_ranges(queue: QueueView, ranges: Seq<Seq<RecordView>>) -> QueueView
    decreases ranges.len(),
{
    if ranges.len() == 0 {
        queue
    } else {
        after_range(after_ranges(queue, ranges.drop_last()), ranges.last())
    }
}

/// A complete range, with `number` ranges in front of it.
pub open spec fn is_range_at(blocks: Seq<RecordView>, number: int) -> bool {
    &&& blocks.len() == RANGE_SIZE
    &&& blocks[0].height == 1000 * number
    &&& blocks.last().height == 1000 * number + 999
}

/// The trees take all commitments of blocks, from the first on.
pub open spec fn trees_take(blocks: Seq<RecordView>) -> bool {
    &&& all_below(sapling_commitments(blocks), sapling_modulus())
    &&& all_below(action_commitments(blocks, false), orchard_modulus())
    &&& all_below(action_commitments(blocks, true), orchard_modulus())
    &&& sapling_commitments(blocks).len() <= tree_capacity()
    &&& action_commitments(blocks, false).len() <= tree_capacity()
    &&& action_commitments(blocks, true).len() <= tree_capacity()
}

/// The anchor behind ranges: the trees of all their blocks, and the last hash.
pub open spec fn anchor_behind(ranges: Seq<Seq<RecordView>>) -> AnchorView {
    if ranges.len() == 0 {
        empty_anchor()
    } else {
        AnchorView {
            hash: ranges.last().last().hash,
            ..anchor_after(empty_anchor(), ranges.flatten())
        }
    }
}

/// The height at which the first `count` ranges end.
pub open spec fn ranges_end(count: int) -> u32 {
    (1000 * count - 1) as u32
}

/// A queue whose worker stands behind `ranges`, with the anchor behind each of them stored.
pub open spec fn stands_behind(queue: QueueView, ranges: Seq<Seq<RecordView>>) -> bool {
    &&& queue.worker.error is None
    &&& queue.worker.anchor_height == (if ranges.len() == 0 {
        None
    } else {
        Some(ranges_end(ranges.len() as int))
    })
    &&& queue.worker.anchor == anchor_behind(ranges)
    &&& forall|count: int|
        0 < count <= ranges.len() ==> queue.anchors.dom().contains(#[trigger] ranges_end(count))
            && queue.anchors[ranges_end(count)] == anchor_behind(ranges.take(count))
}

proof fn lemma_trees_take_in_parts(first: Seq<RecordView>, second: Seq<RecordView>)
    requires
        trees_take(first + second),
    ensures
        trees_take(first),
        all_below(sapling_commitments(second), sapling_modulus()),
        all_below(action_commitments(second, false), orchard_modulus()),
        all_below(action_commitments(second, true), orchard_modulus()),
{
    lemma_commitments_concat(first, second);
    lemma_below_in_parts(
        sapling_commitments(first),
        sapling_commitments(second),
        sapling_modulus(),
    );
    lemma_below_in_parts(
        action_commitments(first, false),
        action_commitments(second, false),
        orchard_modulus(),
    );
    lemma_below_in_parts(
        action_commitments(first, true),
        action_commitments(second, true),
        orchard_modulus(),
    );
}

/// A worker that stands behind ranges takes the next one, and then stands behind it too.
pub proof fn law_range_goes_on(
    queue: QueueView,
    ranges: Seq<Seq<RecordView>>,
    range: Seq<RecordView>,
)
    requires
        stands_behind(queue, ranges),
        is_range_at(range, ranges.len() as int),
        1000 * (ranges.len() + 1) <= u32::MAX,
        trees_take(ranges.push(range).flatten()),
        queue.worker.jobs < u64::MAX,
        queue.worker.blocks + RANGE_SIZE <= u64::MAX,
    ensures
        stands_behind(after_range(queue, range), ranges.push(range)),
        after_range(queue, range).worker.jobs == queue.worker.jobs + 1,
        after_range(queue, range).worker.blocks == queue.worker.blocks + RANGE_SIZE,
{
    let before = ranges.flatten();
    let longer = ranges.push(range);
    let after = after_range(queue, range);
    ranges.lemma_flatten_push(range);
    assert(longer.flatten() == before + range);
    lemma_trees_take_in_parts(before, range);
    lemma_commitments_concat(before, range);
    law_blocks_in_parts(empty_anchor(), before, range);
    if ranges.len() == 0 {
        assert(before =~= Seq::empty());
        assert(before + range =~= range);
        assert(sapling_commitments(before).len() == 0) by {
            lemma_commitments_concat(before, before);
            assert(before + before =~= before);
        }
        assert(action_commitments(before, false).len() == 0 && action_commitments(
            before,
            true,
        ).len() == 0) by {
            lemma_commitments_concat(before, before);
            assert(before + before =~= before);
        }
    }
    assert(queue.worker.anchor.sapling =~= sapling_commitments(before));
    assert(queue.worker.anchor.orchard =~= action_commitments(before, false));
    assert(queue.worker.anchor.ironwood =~= action_commitments(before, true));
    let trees = anchor_after(queue.worker.anchor, range);
    let whole = anchor_after(empty_anchor(), before + range);
    assert(trees.sapling == whole.sapling);
    assert(trees.orchard == whole.orchard);
    assert(trees.ironwood == whole.ironwood);
    assert(anchor_result(queue.worker.anchor, range) is Ok);
    assert(range_step(queue.worker.anchor_height, range) == RangeStep::Append(
        ranges_end(longer.len() as int),
    ));
    assert(after.worker.anchor =~= anchor_behind(longer));
    assert forall|count: int| 0 < count <= longer.len() implies after.anchors.dom().contains(
        #[trigger] ranges_end(count),
    ) && after.anchors[ranges_end(count)] == anchor_behind(longer.take(count)) by {
        if count < longer.len() {
            assert(longer.take(count) =~= ranges.take(count));
        } else {
            assert(longer.take(count) =~= longer);
        }
    }
}

/// A reset takes a worker back behind the ranges in front of its start, whatever came after them,
/// and changes no count.
pub proof fn law_reset_goes_back(queue: QueueView, ranges: Seq<Seq<RecordView>>, kept: nat)
    requires
        stands_behind(queue, ranges),
        kept <= ranges.len(),
        1000 * ranges.len() <= u32::MAX,
    ensures
        stands_behind(after_reset(queue, (1000 * kept) as u32), ranges.take(kept as int)),
        after_reset(queue, (1000 * kept) as u32).worker.jobs == queue.worker.jobs,
        after_reset(queue, (1000 * kept) as u32).worker.blocks == queue.worker.blocks,
{
    let fewer = ranges.take(kept as int);
    let after = after_reset(queue, (1000 * kept) as u32);
    assert(kept > 0 ==> queue.anchors.dom().contains(ranges_end(kept as int)));
    assert forall|count: int| 0 < count <= fewer.len() implies after.anchors.dom().contains(
        #[trigger] ranges_end(count),
    ) && after.anchors[ranges_end(count)] == anchor_behind(fewer.take(count)) by {
        assert(fewer.take(count) =~= ranges.take(count));
    }
}

proof fn lemma_after_ranges(
    queue: QueueView,
    ranges: Seq<Seq<RecordView>>,
    more: Seq<Seq<RecordView>>,
)
    requires
        stands_behind(queue, ranges),
        forall|i: int| 0 <= i < more.len() ==> is_range_at(#[trigger] more[i], ranges.len() + i),
        1000 * (ranges.len() + more.len()) <= u32::MAX,
        trees_take((ranges + more).flatten()),
        queue.worker.jobs + more.len() <= u64::MAX,
        queue.worker.blocks + 1000 * more.len() <= u64::MAX,
    ensures
        stands_behind(after_ranges(queue, more), ranges + more),
        after_ranges(queue, more).worker.jobs == queue.worker.jobs + more.len(),
        after_ranges(queue, more).worker.blocks == queue.worker.blocks + 1000 * more.len(),
    decreases more.len(),
{
    if more.len() == 0 {
        assert(ranges + more =~= ranges);
    } else {
        let fewer = more.drop_last();
        let last = more.last();
        assert(ranges + more =~= (ranges + fewer).push(last));
        (ranges + fewer).lemma_flatten_push(last);
        lemma_trees_take_in_parts((ranges + fewer).flatten(), last);
        assert forall|i: int| 0 <= i < fewer.len() implies is_range_at(
            #[trigger] fewer[i],
            ranges.len() + i,
        ) by {
            assert(fewer[i] == more[i]);
        }
        lemma_after_ranges(queue, ranges, fewer);
        assert(is_range_at(more[more.len() - 1], ranges.len() + more.len() - 1));
        law_range_goes_on(after_ranges(queue, fewer), ranges + fewer, last);
    }
}

/// A queue of ranges, a reset and further ranges comes to the trees of the ranges that the reset
/// kept and of those behind it, with nothing left of the others, and counts all ranges; what a
/// flush then reports is no failure.
pub proof fn law_queue_forgets_what_a_reset_discards(
    first: Seq<Seq<RecordView>>,
    kept: nat,
    second: Seq<Seq<RecordView>>,
)
    requires
        kept <= first.len(),
        forall|i: int| 0 <= i < first.len() ==> is_range_at(#[trigger] first[i], i),
        forall|i: int| 0 <= i < second.len() ==> is_range_at(#[trigger] second[i], kept + i),
        1000 * first.len() <= u32::MAX,
        1000 * (kept + second.len()) <= u32::MAX,
        trees_take(first.flatten()),
        trees_take((first.take(kept as int) + second).flatten()),
    ensures
        ({
            let done = after_ranges(
                after_reset(after_ranges(empty_queue(), first), (1000 * kept) as u32),
                second,
            );
            &&& stands_behind(done, first.take(kept as int) + second)
            &&& done.worker.error is None
            &&& done.worker.jobs == first.len() + second.len()
            &&& done.worker.blocks == 1000 * (first.len() + second.len())
        }),
{
    let none = Seq::<Seq<RecordView>>::empty();
    assert(none + first =~= first);
    lemma_after_ranges(empty_queue(), none, first);
    let queue = after_ranges(empty_queue(), first);
    law_reset_goes_back(queue, first, kept);
    lemma_after_ranges(
        after_reset(queue, (1000 * kept) as u32),
        first.take(kept as int),
        second,
    );
}

// ---------------------------------------------------------------------------
// Leaves and their places
// ---------------------------------------------------------------------------

/// Number of Sapling outputs in front of transaction `t` of block `b`.
pub open spec fn outputs_before(blocks: Seq<CompactBlockRecord>, b: int, t: int) -> nat
    decreases b, t,
{
    if t > 0 {
        outputs_before(blocks, b, t - 1) + blocks[b].transactions@[t - 1].sapling_outputs@.len()
    } else if b > 0 {
        outputs_before(blocks, b - 1, blocks[b - 1].transactions@.len() as int)
    } else {
        0
    }
}

/// Number of Orchard actions in front of transaction `t` of block `b`.
pub open spec fn orchard_before(blocks: Seq<CompactBlockRecord>, b: int, t: int) -> nat
    decreases b, t,
{
    if t > 0 {
        orchard_before(blocks, b, t - 1) + blocks[b].transactions@[t - 1].orchard_actions@.len()
    } else if b > 0 {
        orchard_before(blocks, b - 1, blocks[b - 1].transactions@.len() as int)
    } else {
        0
    }
}

/// Number of Ironwood actions in front of transaction `t` of block `b`.
pub open spec fn ironwood_before(blocks: Seq<CompactBlockRecord>, b: int, t: int) -> nat
    decreases b, t,
{
    if t > 0 {
        ironwood_before(blocks, b, t - 1) + blocks[b].transactions@[t - 1].ironwood_actions@.len()
    } else if b > 0 {
        ironwood_before(blocks, b - 1, blocks[b - 1].transactions@.len() as int)
    } else {
        0
    }
}

proof fn lemma_in_flattened(parts: Seq<Seq<Seq<u8>>>, i: int, k: int)
    requires
        0 <= i < parts.len(),
        0 <= k < parts[i].len(),
    ensures
        parts.take(i).flatten().len() + k < parts.flatten().len(),
        parts.flatten()[parts.take(i).flatten().len() + k] == parts[i][k],
{
    let front = parts.take(i);
    let back = parts.skip(i + 1);
    assert(parts =~= front.push(parts[i]) + back);
    vstd::seq_lib::lemma_flatten_concat(front.push(parts[i]), back);
    front.lemma_flatten_push(parts[i]);
}

proof fn lemma_flattened_front(parts: Seq<Seq<Seq<u8>>>, i: int)
    requires
        0 <= i < parts.len(),
    ensures
        parts.take(i + 1).flatten() == parts.take(i).flatten() + parts[i],
{
    parts.take(i).lemma_flatten_push(parts[i]);
    assert(parts.take(i + 1) =~= parts.take(i).push(parts[i]));
}

/// The commitments of each block, for one pool.
spec fn pool_parts(blocks: Seq<CompactBlockRecord>, pool: int) -> Seq<Seq<Seq<u8>>> {
    if pool == 0 {
        codec::records_view(blocks).map_values(|block: RecordView| sapling_in_block(block))
    } else {
        codec::records_view(blocks).map_values(
            |block: RecordView| actions_in_block(block, pool == 2),
        )
    }
}

/// The commitments of each transaction of a block, for one pool.
spec fn block_parts(block: RecordView, pool: int) -> Seq<Seq<Seq<u8>>> {
    if pool == 0 {
        block.transactions.map_values(
            |transaction: TransactionView| sapling_in_transaction(transaction),
        )
    } else {
        block.transactions.map_values(
            |transaction: TransactionView| actions_in_transaction(transaction, pool == 2),
        )
    }
}

spec fn pool_before(blocks: Seq<CompactBlockRecord>, pool: int, b: int, t: int) -> nat {
    if pool == 0 {
        outputs_before(blocks, b, t)
    } else if pool == 1 {
        orchard_before(blocks, b, t)
    } else {
        ironwood_before(blocks, b, t)
    }
}

proof fn lemma_pool_place(blocks: Seq<CompactBlockRecord>, pool: int, b: int, t: int)
    requires
        0 <= pool <= 2,
        0 <= b < blocks.len(),
        0 <= t <= blocks[b].transactions@.len(),
    ensures
        pool_before(blocks, pool, b, t) == pool_parts(blocks, pool).take(b).flatten().len()
            + block_parts(blocks[b]@, pool).take(t).flatten().len(),
        pool_parts(blocks, pool)[b] == block_parts(blocks[b]@, pool).flatten(),
    decreases b, t,
{
    let parts = pool_parts(blocks, pool);
    let inner = block_parts(blocks[b]@, pool);
    if t > 0 {
        lemma_pool_place(blocks, pool, b, t - 1);
        lemma_flattened_front(inner, t - 1);
    } else {
        assert(inner.take(0) =~= Seq::empty());
        if b > 0 {
            let count = blocks[b - 1].transactions@.len() as int;
            let previous = block_parts(blocks[b - 1]@, pool);
            lemma_pool_place(blocks, pool, b - 1, count);
            assert(previous.take(count) =~= previous);
            lemma_flattened_front(parts, b - 1);
        } else {
            assert(parts.take(0) =~= Seq::empty());
        }
    }
}

proof fn lemma_pool_leaf(blocks: Seq<CompactBlockRecord>, pool: int, b: int, t: int, k: int)
    requires
        0 <= pool <= 2,
        0 <= b < blocks.len(),
        0 <= t < blocks[b].transactions@.len(),
        0 <= k < block_parts(blocks[b]@, pool)[t].len(),
    ensures
        pool_before(blocks, pool, b, t) + k < pool_parts(blocks, pool).flatten().len(),
        pool_parts(blocks, pool).flatten()[pool_before(blocks, pool, b, t) + k] == block_parts(
            blocks[b]@,
            pool,
        )[t][k],
{
    let parts = pool_parts(blocks, pool);
    let inner = block_parts(blocks[b]@, pool);
    lemma_pool_place(blocks, pool, b, t);
    lemma_in_flattened(inner, t, k);
    lemma_in_flattened(parts, b, inner.take(t).flatten().len() + k);
}

proof fn lemma_pool_total(blocks: Seq<CompactBlockRecord>, pool: int)
    requires
        0 <= pool <= 2,
    ensures
        pool_before(blocks, pool, blocks.len() as int, 0) == pool_parts(
            blocks,
            pool,
        ).flatten().len(),
{
    let parts = pool_parts(blocks, pool);
    if blocks.len() > 0 {
        let last = blocks.len() - 1;
        let count = blocks[last].transactions@.len() as int;
        let inner = block_parts(blocks[last]@, pool);
        lemma_pool_place(blocks, pool, last, count);
        assert(inner.take(count) =~= inner);
        lemma_flattened_front(parts, last);
        assert(parts.take(last + 1) =~= parts);
    } else {
        assert(parts =~= Seq::empty());
    }
}

/// Every pool has as many commitments in blocks as their transactions have outputs, or actions, of
/// that pool, and they come in the order of the blocks, then of the transactions in a block, then
/// of the outputs or actions in a transaction.
pub proof fn law_commitments_come_in_chain_order(
    blocks: Seq<CompactBlockRecord>,
    b: int,
    t: int,
    k: int,
)
    requires
        0 <= b < blocks.len(),
        0 <= t < blocks[b].transactions@.len(),
    ensures
        ({
            let views = codec::records_view(blocks);
            let transaction = blocks[b].transactions@[t];
            let sapling = sapling_commitments(views);
            let orchard = action_commitments(views, false);
            let ironwood = action_commitments(views, true);
            &&& sapling.len() == outputs_before(blocks, blocks.len() as int, 0)
            &&& orchard.len() == orchard_before(blocks, blocks.len() as int, 0)
            &&& ironwood.len() == ironwood_before(blocks, blocks.len() as int, 0)
            &&& 0 <= k < transaction.sapling_outputs@.len() ==> outputs_before(blocks, b, t) + k
                < sapling.len() && sapling[outputs_before(blocks, b, t) + k]
                == transaction.sapling_outputs@[k].cmu@
            &&& 0 <= k < transaction.orchard_actions@.len() ==> orchard_before(blocks, b, t) + k
                < orchard.len() && orchard[orchard_before(blocks, b, t) + k]
                == transaction.orchard_actions@[k].commitment@
            &&& 0 <= k < transaction.ironwood_actions@.len() ==> ironwood_before(blocks, b, t) + k
                < ironwood.len() && ironwood[ironwood_before(blocks, b, t) + k]
                == transaction.ironwood_actions@[k].commitment@
        }),
{
    let transaction = blocks[b].transactions@[t];
    lemma_pool_names(blocks);
    lemma_pool_total(blocks, 0);
    lemma_pool_total(blocks, 1);
    lemma_pool_total(blocks, 2);
    if 0 <= k < transaction.sapling_outputs@.len() {
        lemma_pool_leaf(blocks, 0, b, t, k);
    }
    if 0 <= k < transaction.orchard_actions@.len() {
        lemma_pool_leaf(blocks, 1, b, t, k);
    }
    if 0 <= k < transaction.ironwood_actions@.len() {
        lemma_pool_leaf(blocks, 2, b, t, k);
    }
}

proof fn lemma_pool_names(blocks: Seq<CompactBlockRecord>)
    ensures
        sapling_commitments(codec::records_view(blocks)) == pool_parts(blocks, 0).flatten(),
        action_commitments(codec::records_view(blocks), false) == pool_parts(blocks, 1).flatten(),
        action_commitments(codec::records_view(blocks), true) == pool_parts(blocks, 2).flatten(),
{
    let views = codec::records_view(blocks);
    assert(views.map_values(|block: RecordView| actions_in_block(block, false)) =~= pool_parts(
        blocks,
        1,
    ));
    assert(views.map_values(|block: RecordView| actions_in_block(block, true)) =~= pool_parts(
        blocks,
        2,
    ));
}

/// Appending blocks puts their commitments behind the leaves that the trees have, pool by pool and
/// in the order of the chain: leaf by leaf, the Sapling tree goes on with the note commitments of
/// the outputs, the Orchard and Ironwood trees with those of the actions of their pool.
pub proof fn law_trees_go_on_in_chain_order(
    anchor: AnchorView,
    blocks: Seq<CompactBlockRecord>,
    b: int,
    t: int,
    k: int,
)
    requires
        anchor_result(anchor, codec::records_view(blocks)) is Ok,
        0 <= b < blocks.len(),
        0 <= t < blocks[b].transactions@.len(),
    ensures
        ({
            let after = anchor_after(anchor, codec::records_view(blocks));
            let transaction = blocks[b].transactions@[t];
            let all = blocks.len() as int;
            &&& after.hash == anchor.hash
            &&& after.sapling.len() == anchor.sapling.len() + outputs_before(blocks, all, 0)
            &&& after.orchard.len() == anchor.orchard.len() + orchard_before(blocks, all, 0)
            &&& after.ironwood.len() == anchor.ironwood.len() + ironwood_before(blocks, all, 0)
            &&& after.sapling.take(anchor.sapling.len() as int) == anchor.sapling
            &&& after.orchard.take(anchor.orchard.len() as int) == anchor.orchard
            &&& after.ironwood.take(anchor.ironwood.len() as int) == anchor.ironwood
            &&& 0 <= k < transaction.sapling_outputs@.len() ==> after.sapling[anchor.sapling.len()
                + outputs_before(blocks, b, t) + k] == transaction.sapling_outputs@[k].cmu@
            &&& 0 <= k < transaction.orchard_actions@.len() ==> after.orchard[anchor.orchard.len()
                + orchard_before(blocks, b, t) + k] == transaction.orchard_actions@[k].commitment@
            &&& 0 <= k < transaction.ironwood_actions@.len()
                ==> after.ironwood[anchor.ironwood.len() + ironwood_before(blocks, b, t) + k]
                == transaction.ironwood_actions@[k].commitment@
        }),
{
    let after = anchor_after(anchor, codec::records_view(blocks));
    law_commitments_come_in_chain_order(blocks, b, t, k);
    assert(after.sapling.take(anchor.sapling.len() as int) =~= anchor.sapling);
    assert(after.orchard.take(anchor.orchard.len() as int) =~= anchor.orchard);
    assert(after.ironwood.take(anchor.ironwood.len() as int) =~= anchor.ironwood);
}

/// Appending blocks adds to each tree one leaf for every output or action of its pool in them, and
/// none besides.
pub proof fn law_trees_grow_by_one_leaf_each(anchor: AnchorView, blocks: Seq<CompactBlockRecord>)
    requires
        anchor_result(anchor, codec::records_view(blocks)) is Ok,
    ensures
        ({
            let after = anchor_after(anchor, codec::records_view(blocks));
            let all = blocks.len() as int;
            &&& after.sapling.len() == anchor.sapling.len() + outputs_before(blocks, all, 0)
            &&& after.orchard.len() == anchor.orchard.len() + orchard_before(blocks, all, 0)
            &&& after.ironwood.len() == anchor.ironwood.len() + ironwood_before(blocks, all, 0)
        }),
{
    lemma_pool_names(blocks);
    lemma_pool_total(blocks, 0);
    lemma_pool_total(blocks, 1);
    lemma_pool_total(blocks, 2);
}

/// A tree takes up to 2 to the power of 32 leaves: commitments that fit all come behind its leaves,
/// and of those that do not, as many as fit come, and the tree is full.
pub proof fn law_trees_hold_four_billion_leaves(
    before: Seq<Seq<u8>>,
    commitments: Seq<Seq<u8>>,
    result: Result<(), IndexError>,
    after: Seq<Seq<u8>>,
)
    requires
        before.len() <= 4_294_967_296,
        append_outcome(before, commitments, result, after),
    ensures
        after.len() == if before.len() + commitments.len() <= 4_294_967_296 {
            before.len() + commitments.len()
        } else {
            4_294_967_296
        },
        forall|i: int| 0 <= i < before.len() ==> #[trigger] after[i] == before[i],
        forall|i: int|
            before.len() <= i < after.len() ==> #[trigger] after[i] == commitments[i
                - before.len()],
        result == if before.len() + commitments.len() <= 4_294_967_296 {
            Ok::<(), IndexError>(())
        } else {
            Err(IndexError::Tree(TreeError::Full))
        },
{
}

/// Every commitment of a pool in blocks is that of one of their transactions.
proof fn lemma_pool_leaf_found(blocks: Seq<CompactBlockRecord>, pool: int, i: int) -> (place: (
    int,
    int,
    int,
))
    requires
        0 <= pool <= 2,
        0 <= i < pool_parts(blocks, pool).flatten().len(),
    ensures
        ({
            let (b, t, k) = place;
            &&& 0 <= b < blocks.len()
            &&& 0 <= t < blocks[b].transactions@.len()
            &&& 0 <= k < block_parts(blocks[b]@, pool)[t].len()
            &&& pool_parts(blocks, pool).flatten()[i] == block_parts(blocks[b]@, pool)[t][k]
        }),
{
    let parts = pool_parts(blocks, pool);
    let (b, j) = lemma_found_in_flattened(parts, i);
    lemma_pool_place(blocks, pool, b, 0);
    let (t, k) = lemma_found_in_flattened(block_parts(blocks[b]@, pool), j);
    (b, t, k)
}

proof fn lemma_found_in_flattened(parts: Seq<Seq<Seq<u8>>>, i: int) -> (place: (int, int))
    requires
        0 <= i < parts.flatten().len(),
    ensures
        0 <= place.0 < parts.len(),
        0 <= place.1 < parts[place.0].len(),
        parts.flatten()[i] == parts[place.0][place.1],
    decreases parts.len(),
{
    if i < parts[0].len() {
        (0, i)
    } else {
        let place = lemma_found_in_flattened(parts.drop_first(), i - parts[0].len());
        (place.0 + 1, place.1)
    }
}

/// Blocks whose commitments are all below the order of their field, and whose trees have room for
/// them, are appended.
pub proof fn law_good_commitments_are_appended(
    anchor: AnchorView,
    blocks: Seq<CompactBlockRecord>,
)
    requires
        forall|b: int, t: int, k: int|
            0 <= b < blocks.len() && 0 <= t < blocks[b].transactions@.len() && 0 <= k
                < blocks[b].transactions@[t].sapling_outputs@.len() ==> bytes::le_value(
                (#[trigger] blocks[b].transactions@[t].sapling_outputs@[k]).cmu@,
            ) < 0x73eda753299d7d483339d80809a1d80553bda402fffe5bfeffffffff00000001nat,
        forall|b: int, t: int, k: int|
            0 <= b < blocks.len() && 0 <= t < blocks[b].transactions@.len() && 0 <= k
                < blocks[b].transactions@[t].orchard_actions@.len() ==> bytes::le_value(
                (#[trigger] blocks[b].transactions@[t].orchard_actions@[k]).commitment@,
            ) < 0x40000000000000000000000000000000224698fc094cf91b992d30ed00000001nat,
        forall|b: int, t: int, k: int|
            0 <= b < blocks.len() && 0 <= t < blocks[b].transactions@.len() && 0 <= k
                < blocks[b].transactions@[t].ironwood_actions@.len() ==> bytes::le_value(
                (#[trigger] blocks[b].transactions@[t].ironwood_actions@[k]).commitment@,
            ) < 0x40000000000000000000000000000000224698fc094cf91b992d30ed00000001nat,
        anchor.sapling.len() + outputs_before(blocks, blocks.len() as int, 0) <= 4_294_967_296,
        anchor.orchard.len() + orchard_before(blocks, blocks.len() as int, 0) <= 4_294_967_296,
        anchor.ironwood.len() + ironwood_before(blocks, blocks.len() as int, 0) <= 4_294_967_296,
    ensures
        anchor_result(anchor, codec::records_view(blocks)) == Ok::<(), IndexError>(()),
{
    let views = codec::records_view(blocks);
    lemma_pool_names(blocks);
    lemma_pool_total(blocks, 0);
    lemma_pool_total(blocks, 1);
    lemma_pool_total(blocks, 2);
    let sapling = sapling_commitments(views);
    assert forall|i: int| 0 <= i < sapling.len() implies bytes::le_value(#[trigger] sapling[i])
        < sapling_modulus() by {
        let (b, t, k) = lemma_pool_leaf_found(blocks, 0, i);
        assert(sapling[i] == blocks[b].transactions@[t].sapling_outputs@[k].cmu@);
    }
    let orchard = action_commitments(views, false);
    assert forall|i: int| 0 <= i < orchard.len() implies bytes::le_value(#[trigger] orchard[i])
        < orchard_modulus() by {
        let (b, t, k) = lemma_pool_leaf_found(blocks, 1, i);
        assert(orchard[i] == blocks[b].transactions@[t].orchard_actions@[k].commitment@);
    }
    let ironwood = action_commitments(views, true);
    assert forall|i: int| 0 <= i < ironwood.len() implies bytes::le_value(#[trigger] ironwood[i])
        < orchard_modulus() by {
        let (b, t, k) = lemma_pool_leaf_found(blocks, 2, i);
        assert(ironwood[i] == blocks[b].transactions@[t].ironwood_actions@[k].commitment@);
    }
}

/// A commitment that is not below the order of its field is refused: no commitment of its pool is
/// appended, and the refusal is that of Sapling where it is a Sapling commitment.
pub proof fn law_bad_commitments_are_refused(
    anchor: AnchorView,
    blocks: Seq<CompactBlockRecord>,
    b: int,
    t: int,
    k: int,
)
    requires
        0 <= b < blocks.len(),
        0 <= t < blocks[b].transactions@.len(),
    ensures
        ({
            let transaction = blocks[b].transactions@[t];
            let result = anchor_result(anchor, codec::records_view(blocks));
            let after = anchor_after(anchor, codec::records_view(blocks));
            &&& 0 <= k < transaction.sapling_outputs@.len() && bytes::le_value(
                transaction.sapling_outputs@[k].cmu@,
            ) >= 0x73eda753299d7d483339d80809a1d80553bda402fffe5bfeffffffff00000001nat ==> result
                == Err::<(), IndexError>(IndexError::Tree(TreeError::SaplingCommitment))
                && after.sapling == anchor.sapling
            &&& 0 <= k < transaction.orchard_actions@.len() && bytes::le_value(
                transaction.orchard_actions@[k].commitment@,
            ) >= 0x40000000000000000000000000000000224698fc094cf91b992d30ed00000001nat ==> result is Err
                && after.orchard == anchor.orchard
            &&& 0 <= k < transaction.ironwood_actions@.len() && bytes::le_value(
                transaction.ironwood_actions@[k].commitment@,
            ) >= 0x40000000000000000000000000000000224698fc094cf91b992d30ed00000001nat ==> result is Err
                && after.ironwood == anchor.ironwood
        }),
{
    let views = codec::records_view(blocks);
    let transaction = blocks[b].transactions@[t];
    lemma_pool_names(blocks);
    if 0 <= k < transaction.sapling_outputs@.len() {
        lemma_pool_leaf(blocks, 0, b, t, k);
        assert(sapling_commitments(views)[pool_before(blocks, 0, b, t) + k]
            == transaction.sapling_outputs@[k].cmu@);
    }
    if 0 <= k < transaction.orchard_actions@.len() {
        lemma_pool_leaf(blocks, 1, b, t, k);
        assert(action_commitments(views, false)[pool_before(blocks, 1, b, t) + k]
            == transaction.orchard_actions@[k].commitment@);
    }
    if 0 <= k < transaction.ironwood_actions@.len() {
        lemma_pool_leaf(blocks, 2, b, t, k);
        assert(action_commitments(views, true)[pool_before(blocks, 2, b, t) + k]
            == transaction.ironwood_actions@[k].commitment@);
    }
}

/// An anchor in front of all blocks has no leaf, and a hash of zeros.
pub proof fn law_first_anchor_is_empty()
    ensures
        empty_anchor().sapling.len() == 0,
        empty_anchor().orchard.len() == 0,
        empty_anchor().ironwood.len() == 0,
        empty_anchor().hash.len() == 32,
        forall|i: int| 0 <= i < 32 ==> #[trigger] empty_anchor().hash[i] == 0,
{
}

/// A worker takes a range exactly where it is complete, a thousand blocks from its first height to
/// 999 above it, and begins right behind the last anchor, or at zero without one. A complete range
/// that ends at or below the anchor is passed over; all others are refused, with what was expected.
pub proof fn law_worker_takes_the_next_range(anchor_height: Option<u32>, blocks: Seq<RecordView>)
    requires
        anchor_height matches Some(height) ==> height < u32::MAX,
    ensures
        ({
            let start = blocks[0].height;
            let end = blocks[blocks.len() - 1].height;
            let complete = blocks.len() == 1000 && end == start + 999;
            let next: int = match anchor_height {
                None => 0,
                Some(height) => height + 1,
            };
            match range_step(anchor_height, blocks) {
                RangeStep::Append(at) => complete && start == next && at == end,
                RangeStep::Skip => complete && end < next,
                RangeStep::Refuse(error) => if blocks.len() == 0 {
                    error == IndexError::Metadata
                } else if !complete {
                    error == IndexError::IncompleteRange { start }
                } else {
                    start != next && end >= next && error == IndexError::Tree(
                        TreeError::UnexpectedRange { expected: next as u32, actual: start },
                    )
                },
            }
        }),
{
}

/// A worker that has been handed a range says why it stops in the words of the error, keeps what it
/// has counted where the range is not taken, and stores no anchor then; a range that is taken is
/// counted once, with its thousand blocks, and its anchor is stored under its last height.
pub proof fn law_queue_counts_what_it_takes(queue: QueueView, blocks: Seq<RecordView>)
    requires
        queue.worker.jobs < u64::MAX,
        queue.worker.blocks + 1000 <= u64::MAX,
    ensures
        ({
            let worker = queue.worker;
            let after = after_range(queue, blocks);
            let taken = worker.error is None && range_step(worker.anchor_height, blocks) is Append
                && anchor_result(worker.anchor, blocks) is Ok;
            if taken {
                let end = blocks[blocks.len() - 1].height;
                &&& after.worker.jobs == worker.jobs + 1
                &&& after.worker.blocks == worker.blocks + 1000
                &&& after.worker.anchor_height == Some(end)
                &&& after.worker.anchor.hash == blocks[blocks.len() - 1].hash
                &&& after.anchors == queue.anchors.insert(end, after.worker.anchor)
                &&& after.worker.error is None
            } else {
                &&& after.worker.jobs == worker.jobs
                &&& after.worker.blocks == worker.blocks
                &&& after.worker.anchor_height == worker.anchor_height
                &&& after.anchors == queue.anchors
            }
        }),
{
}

/// Each error of the trees has its own words.
pub proof fn law_tree_errors_keep_their_words(expected: u32, actual: u32)
    ensures
        TreeError::Full.words() == "The note commitment tree is full"@,
        TreeError::SaplingCommitment.words()
            == "parse error: invalid ExtractedNoteCommitment bytes"@,
        TreeError::OrchardCommitment.words()
            == "parse error: Invalid pallas::Base, input not canonical"@,
        (TreeError::UnexpectedRange { expected, actual }).words() == "expected range "@
            + text::decimal(expected as nat) + ", got "@ + text::decimal(actual as nat),
{
}

} // verus!
