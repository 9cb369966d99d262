//! Binary format of block records and of sealed ranges of them.
use vstd::prelude::*;
use vstd::slice::slice_subrange;
use vstd::string::StringExecFns;

use crate::bytes;
use crate::index::RANGE_SIZE;
use crate::parser;
use crate::parser::{
    ActionView, CompactSaplingOutput, CompactShieldedAction, CompactTransaction, OutputView,
    TransactionView,
};
use crate::text;

verus! {

pub const BLOCK_FORMAT_VERSION: u8 = 1;

pub const RANGE_FORMAT_VERSION: u8 = 1;

/// No record is longer than this when encoded.
pub const MAX_RECORD_BYTES: usize = 2_000_000;

/// What a record takes without its header and its transactions.
pub const RECORD_FIXED_BYTES: usize = 93;

/// What a transaction takes without its spends, outputs and actions.
pub const TRANSACTION_FIXED_BYTES: usize = 56;

/// Number of note commitments in each pool's tree.
#[derive(Clone, Copy, Debug, PartialEq, Eq)]
pub struct TreeSizes {
    pub sapling: u32,
    pub orchard: u32,
    pub ironwood: u32,
}

impl Default for TreeSizes {
    fn default() -> (sizes: Self)
        ensures
            sizes == (TreeSizes { sapling: 0, orchard: 0, ironwood: 0 }),
    {
        TreeSizes { sapling: 0, orchard: 0, ironwood: 0 }
    }
}

/// What the index keeps of one block.
#[derive(Clone, Debug, PartialEq, Eq)]
pub struct CompactBlockRecord {
    pub height: u32,
    pub hash: [u8; 32],
    pub previous_hash: [u8; 32],
    pub time: u32,
    pub header: Vec<u8>,
    pub transactions: Vec<CompactTransaction>,
    pub end_tree_sizes: TreeSizes,
}

/// A [`CompactBlockRecord`] as sequences.
#[verifier::ext_equal]
pub struct RecordView {
    pub height: u32,
    pub hash: Seq<u8>,
    pub previous_hash: Seq<u8>,
    pub time: u32,
    pub header: Seq<u8>,
    pub transactions: Seq<TransactionView>,
    pub end_tree_sizes: TreeSizes,
}

impl View for CompactBlockRecord {
    type V = RecordView;

    open spec fn view(&self) -> RecordView {
        RecordView {
            height: self.height,
            hash: self.hash@,
            previous_hash: self.previous_hash@,
            time: self.time,
            header: self.header@,
            transactions: parser::transactions_view(self.transactions@),
            end_tree_sizes: self.end_tree_sizes,
        }
    }
}

/// Why bytes are not an encoded value, or a value cannot be encoded.
#[derive(Clone, Copy, Debug, PartialEq, Eq)]
pub enum CodecError {
    Truncated,
    Version { kind: &'static str, version: u8 },
    Length,
    TrailingBytes,
    InvalidRange,
    RangeIndex,
}

impl CodecError {
    /// The error in words.
    pub open spec fn words(self) -> Seq<char> {
        match self {
            CodecError::Truncated => "encoded value is truncated"@,
            CodecError::Version { kind, version } => "unsupported "@ + kind@ + " format version "@
                + text::decimal(version as nat),
            CodecError::Length => "encoded count, length, or offset is invalid"@,
            CodecError::TrailingBytes => "encoded value has trailing bytes"@,
            CodecError::InvalidRange =>
                "range must contain exactly 1000 contiguous aligned blocks"@,
            CodecError::RangeIndex => "range record index is outside 0..1000"@,
        }
    }

    /// The error in words.
    pub fn message(&self) -> (message: String)
        ensures
            message@ == self.words(),
    {
        match self {
            CodecError::Truncated => String::from_str("encoded value is truncated"),
            CodecError::Version { kind, version } => String::from_str("unsupported ").concat(
                kind,
            ).concat(" format version ").concat(text::number_text(*version as u64).as_str()),
            CodecError::Length => String::from_str("encoded count, length, or offset is invalid"),
            CodecError::TrailingBytes => String::from_str("encoded value has trailing bytes"),
            CodecError::InvalidRange => String::from_str(
                "range must contain exactly 1000 contiguous aligned blocks",
            ),
            CodecError::RangeIndex => String::from_str("range record index is outside 0..1000"),
        }
    }
}

// ---------------------------------------------------------------------------
// The format
// ---------------------------------------------------------------------------

pub open spec fn output_bytes(output: OutputView) -> Seq<u8> {
    output.cmu + output.ephemeral_key + output.ciphertext
}

pub open spec fn action_bytes(action: ActionView) -> Seq<u8> {
    action.nullifier + action.commitment + action.ephemeral_key + action.ciphertext
}

pub open spec fn outputs_bytes(outputs: Seq<OutputView>) -> Seq<u8> {
    outputs.map_values(|output: OutputView| output_bytes(output)).flatten()
}

pub open spec fn actions_bytes(actions: Seq<ActionView>) -> Seq<u8> {
    actions.map_values(|action: ActionView| action_bytes(action)).flatten()
}

/// Index, identifier and the four counts of a transaction.
pub open spec fn transaction_head(transaction: TransactionView) -> Seq<u8> {
    bytes::be_bytes(transaction.index as nat, 8) + transaction.txid + bytes::be_bytes(
        transaction.sapling_spends.len(),
        4,
    ) + bytes::be_bytes(transaction.sapling_outputs.len(), 4) + bytes::be_bytes(
        transaction.orchard_actions.len(),
        4,
    ) + bytes::be_bytes(transaction.ironwood_actions.len(), 4)
}

pub open spec fn transaction_bytes(transaction: TransactionView) -> Seq<u8> {
    transaction_head(transaction) + transaction.sapling_spends.flatten() + outputs_bytes(
        transaction.sapling_outputs,
    ) + actions_bytes(transaction.orchard_actions) + actions_bytes(transaction.ironwood_actions)
}

pub open spec fn transactions_bytes(transactions: Seq<TransactionView>) -> Seq<u8> {
    transactions.map_values(|transaction: TransactionView| transaction_bytes(transaction)).flatten()
}

/// The fixed fields of a record.
pub open spec fn record_head(record: RecordView) -> Seq<u8> {
    seq![BLOCK_FORMAT_VERSION] + bytes::be_bytes(record.height as nat, 4) + record.hash
        + record.previous_hash + bytes::be_bytes(record.time as nat, 4) + bytes::be_bytes(
        record.end_tree_sizes.sapling as nat,
        4,
    ) + bytes::be_bytes(record.end_tree_sizes.orchard as nat, 4) + bytes::be_bytes(
        record.end_tree_sizes.ironwood as nat,
        4,
    ) + bytes::be_bytes(record.header.len(), 4) + bytes::be_bytes(record.transactions.len(), 4)
}

/// An encoded record.
#[verifier::opaque]
pub open spec fn record_bytes(record: RecordView) -> Seq<u8> {
    record_head(record) + record.header + transactions_bytes(record.transactions)
}

/// What the spends, outputs and actions of a transaction take.
pub open spec fn items_len(spends: nat, outputs: nat, orchard: nat, ironwood: nat) -> nat {
    32 * spends + 116 * outputs + 148 * orchard + 148 * ironwood
}

pub open spec fn transaction_len(transaction: TransactionView) -> nat {
    56 + items_len(
        transaction.sapling_spends.len(),
        transaction.sapling_outputs.len(),
        transaction.orchard_actions.len(),
        transaction.ironwood_actions.len(),
    )
}

pub open spec fn transactions_len(transactions: Seq<TransactionView>) -> nat
    decreases transactions.len(),
{
    if transactions.len() == 0 {
        0
    } else {
        transactions_len(transactions.drop_last()) + transaction_len(transactions.last())
    }
}

/// How long a record with this header and these transactions is when encoded.
pub open spec fn record_len(header_len: nat, transactions: Seq<TransactionView>) -> nat {
    93 + header_len + transactions_len(transactions)
}

// ---------------------------------------------------------------------------
// Values that have the widths the format gives them
// ---------------------------------------------------------------------------

pub open spec fn output_fits(output: OutputView) -> bool {
    output.cmu.len() == 32 && output.ephemeral_key.len() == 32 && output.ciphertext.len() == 52
}

pub open spec fn action_fits(action: ActionView) -> bool {
    action.nullifier.len() == 32 && action.commitment.len() == 32 && action.ephemeral_key.len()
        == 32 && action.ciphertext.len() == 52
}

pub open spec fn transaction_fits(transaction: TransactionView) -> bool {
    &&& transaction.txid.len() == 32
    &&& forall|i: int|
        0 <= i < transaction.sapling_spends.len() ==> (
        #[trigger] transaction.sapling_spends[i]).len() == 32
    &&& forall|i: int|
        0 <= i < transaction.sapling_outputs.len() ==> output_fits(
            #[trigger] transaction.sapling_outputs[i],
        )
    &&& forall|i: int|
        0 <= i < transaction.orchard_actions.len() ==> action_fits(
            #[trigger] transaction.orchard_actions[i],
        )
    &&& forall|i: int|
        0 <= i < transaction.ironwood_actions.len() ==> action_fits(
            #[trigger] transaction.ironwood_actions[i],
        )
}

pub open spec fn record_fits(record: RecordView) -> bool {
    &&& record.hash.len() == 32
    &&& record.previous_hash.len() == 32
    &&& forall|i: int|
        0 <= i < record.transactions.len() ==> transaction_fits(#[trigger] record.transactions[i])
}

// ---------------------------------------------------------------------------
// Reading the format
// ---------------------------------------------------------------------------

/// The number of four bytes at `at`.
pub open spec fn number_at(bytes: Seq<u8>, at: int) -> nat {
    bytes::be_value(bytes.subrange(at, at + 4))
}

pub open spec fn output_at(bytes: Seq<u8>, at: int) -> OutputView {
    OutputView {
        cmu: bytes.subrange(at, at + 32),
        ephemeral_key: bytes.subrange(at + 32, at + 64),
        ciphertext: bytes.subrange(at + 64, at + 116),
    }
}

pub open spec fn action_at(bytes: Seq<u8>, at: int) -> ActionView {
    ActionView {
        nullifier: bytes.subrange(at, at + 32),
        commitment: bytes.subrange(at + 32, at + 64),
        ephemeral_key: bytes.subrange(at + 64, at + 96),
        ciphertext: bytes.subrange(at + 96, at + 148),
    }
}

pub open spec fn spends_at(bytes: Seq<u8>, at: int, count: nat) -> Seq<Seq<u8>> {
    Seq::new(count, |i: int| bytes.subrange(at + 32 * i, at + 32 * i + 32))
}

pub open spec fn outputs_at(bytes: Seq<u8>, at: int, count: nat) -> Seq<OutputView> {
    Seq::new(count, |i: int| output_at(bytes, at + 116 * i))
}

pub open spec fn actions_at(bytes: Seq<u8>, at: int, count: nat) -> Seq<ActionView> {
    Seq::new(count, |i: int| action_at(bytes, at + 148 * i))
}

/// What the items of the transaction at `at` take, by its four counts.
pub open spec fn items_len_at(bytes: Seq<u8>, at: int) -> nat {
    items_len(
        number_at(bytes, at + 40),
        number_at(bytes, at + 44),
        number_at(bytes, at + 48),
        number_at(bytes, at + 52),
    )
}

/// The transaction whose encoding begins at `at`.
pub open spec fn transaction_at(bytes: Seq<u8>, at: int) -> TransactionView {
    let spends = number_at(bytes, at + 40);
    let outputs = number_at(bytes, at + 44);
    let orchard = number_at(bytes, at + 48);
    let ironwood = number_at(bytes, at + 52);
    let outputs_start = at + 56 + 32 * spends;
    let orchard_start = outputs_start + 116 * outputs;
    let ironwood_start = orchard_start + 148 * orchard;
    TransactionView {
        index: bytes::be_value(bytes.subrange(at, at + 8)) as u64,
        txid: bytes.subrange(at + 8, at + 40),
        sapling_spends: spends_at(bytes, at + 56, spends),
        sapling_outputs: outputs_at(bytes, outputs_start, outputs),
        orchard_actions: actions_at(bytes, orchard_start, orchard),
        ironwood_actions: actions_at(bytes, ironwood_start, ironwood),
    }
}

/// The `count` transactions whose encodings begin at `at`, and where they end.
pub open spec fn read_transactions(bytes: Seq<u8>, at: int, count: nat) -> Result<
    (Seq<TransactionView>, int),
    CodecError,
>
    decreases count,
{
    if count == 0 {
        Ok((Seq::empty(), at))
    } else if at + 56 > bytes.len() {
        Err(CodecError::Truncated)
    } else if items_len_at(bytes, at) > usize::MAX {
        Err(CodecError::Length)
    } else if at + 56 + items_len_at(bytes, at) > bytes.len() {
        Err(CodecError::Truncated)
    } else {
        after_transactions(
            seq![transaction_at(bytes, at)],
            read_transactions(bytes, at + 56 + items_len_at(bytes, at), (count - 1) as nat),
        )
    }
}

/// A reading of more transactions, behind those already read.
pub open spec fn after_transactions(
    done: Seq<TransactionView>,
    rest: Result<(Seq<TransactionView>, int), CodecError>,
) -> Result<(Seq<TransactionView>, int), CodecError> {
    match rest {
        Ok((more, end)) => Ok((done + more, end)),
        Err(error) => Err(error),
    }
}

/// What a field of `len` bytes at `at` fails with where it does not fit.
pub open spec fn take_error(at: int, len: nat) -> CodecError {
    if at + len > usize::MAX {
        CodecError::Length
    } else {
        CodecError::Truncated
    }
}

/// The record that bytes encode, or what is wrong with them.
#[verifier::opaque]
pub open spec fn read_record(bytes: Seq<u8>) -> Result<RecordView, CodecError> {
    let header_len = number_at(bytes, 85);
    let count = number_at(bytes, 89);
    let transactions_start = 93 + header_len;
    if bytes.len() > MAX_RECORD_BYTES {
        Err(CodecError::Length)
    } else if bytes.len() == 0 {
        Err(CodecError::Truncated)
    } else if bytes[0] != BLOCK_FORMAT_VERSION {
        Err(CodecError::Version { kind: "block", version: bytes[0] })
    } else if bytes.len() < 93 {
        Err(CodecError::Truncated)
    } else if transactions_start > bytes.len() {
        Err(take_error(93, header_len))
    } else if count * 56 > usize::MAX {
        Err(CodecError::Length)
    } else if transactions_start + count * 56 > bytes.len() {
        Err(CodecError::Truncated)
    } else {
        match read_transactions(bytes, transactions_start as int, count) {
            Err(error) => Err(error),
            Ok((transactions, end)) => if end < bytes.len() {
                Err(CodecError::TrailingBytes)
            } else {
                Ok(
                    RecordView {
                        height: number_at(bytes, 1) as u32,
                        hash: bytes.subrange(5, 37),
                        previous_hash: bytes.subrange(37, 69),
                        time: number_at(bytes, 69) as u32,
                        header: bytes.subrange(93, transactions_start as int),
                        transactions,
                        end_tree_sizes: TreeSizes {
                            sapling: number_at(bytes, 73) as u32,
                            orchard: number_at(bytes, 77) as u32,
                            ironwood: number_at(bytes, 81) as u32,
                        },
                    },
                )
            },
        }
    }
}

// ---------------------------------------------------------------------------
// Reader
// ---------------------------------------------------------------------------

struct Reader<'a> {
    bytes: &'a [u8],
    offset: usize,
}

impl<'a> Reader<'a> {
    spec fn wf(self) -> bool {
        self.offset <= self.bytes.len()
    }

    /// `self` has moved `len` bytes on from `before`.
    spec fn moved(self, before: Self, len: int) -> bool {
        self.wf() && self.bytes == before.bytes && self.offset == before.offset + len
    }

    fn new(bytes: &'a [u8]) -> (reader: Self)
        ensures
            reader.wf(),
            reader.bytes == bytes,
            reader.offset == 0,
    {
        Reader { bytes, offset: 0 }
    }

    fn remaining(&self) -> (remaining: usize)
        requires
            self.wf(),
        ensures
            remaining == self.bytes@.len() - self.offset,
    {
        self.bytes.len() - self.offset
    }

    fn take(&mut self, len: usize) -> (taken: Result<&'a [u8], CodecError>)
        requires
            old(self).wf(),
        ensures
            match taken {
                Ok(value) => final(self).moved(*old(self), len as int) && value@ == old(
                    self,
                ).bytes@.subrange(old(self).offset as int, old(self).offset + len),
                Err(error) => *final(self) == *old(self) && old(self).offset + len > old(
                    self,
                ).bytes@.len() && error == take_error(old(self).offset as int, len as nat),
            },
    {
        match self.offset.checked_add(len) {
            None => Err(CodecError::Length),
            Some(end) => if end > self.bytes.len() {
                Err(CodecError::Truncated)
            } else {
                let value = slice_subrange(self.bytes, self.offset, end);
                self.offset = end;
                Ok(value)
            },
        }
    }

    fn array<const N: usize>(&mut self) -> (taken: Result<[u8; N], CodecError>)
        requires
            old(self).wf(),
        ensures
            match taken {
                Ok(value) => final(self).moved(*old(self), N as int) && value@ == old(
                    self,
                ).bytes@.subrange(old(self).offset as int, old(self).offset + N),
                Err(error) => *final(self) == *old(self) && old(self).offset + N > old(
                    self,
                ).bytes@.len() && error == take_error(old(self).offset as int, N as nat),
            },
    {
        let taken = self.take(N)?;
        let array: [u8; N] = bytes::get_array(taken, 0);
        assert(array@ =~= taken@);
        Ok(array)
    }

    fn u8(&mut self) -> (taken: Result<u8, CodecError>)
        requires
            old(self).wf(),
        ensures
            match taken {
                Ok(value) => final(self).moved(*old(self), 1) && value == old(
                    self,
                ).bytes@[old(self).offset as int],
                Err(error) => *final(self) == *old(self) && old(self).offset == old(
                    self,
                ).bytes@.len() && error == take_error(old(self).offset as int, 1),
            },
    {
        let taken: [u8; 1] = self.array::<1>()?;
        Ok(taken[0])
    }

    fn u32(&mut self) -> (taken: Result<u32, CodecError>)
        requires
            old(self).wf(),
        ensures
            match taken {
                Ok(value) => final(self).moved(*old(self), 4) && value == number_at(
                    old(self).bytes@,
                    old(self).offset as int,
                ),
                Err(error) => *final(self) == *old(self) && old(self).offset + 4 > old(
                    self,
                ).bytes@.len() && error == take_error(old(self).offset as int, 4),
            },
    {
        let taken = self.take(4)?;
        assert(taken@.subrange(0, 4) =~= taken@);
        Ok(bytes::get_u32(taken, 0))
    }

    fn u64(&mut self) -> (taken: Result<u64, CodecError>)
        requires
            old(self).wf(),
        ensures
            match taken {
                Ok(value) => final(self).moved(*old(self), 8) && value == bytes::be_value(
                    old(self).bytes@.subrange(old(self).offset as int, old(self).offset + 8),
                ),
                Err(error) => *final(self) == *old(self) && old(self).offset + 8 > old(
                    self,
                ).bytes@.len() && error == take_error(old(self).offset as int, 8),
            },
    {
        let taken = self.take(8)?;
        assert(taken@.subrange(0, 8) =~= taken@);
        Ok(bytes::get_u64(taken, 0))
    }

    fn len(&mut self) -> (taken: Result<usize, CodecError>)
        requires
            old(self).wf(),
        ensures
            match taken {
                Ok(value) => final(self).moved(*old(self), 4) && value == number_at(
                    old(self).bytes@,
                    old(self).offset as int,
                ),
                Err(error) => *final(self) == *old(self) && old(self).offset + 4 > old(
                    self,
                ).bytes@.len() && error == take_error(old(self).offset as int, 4),
            },
    {
        Ok(self.u32()? as usize)
    }

    fn bounded_count(&self, count: usize, minimum_size: usize) -> (bounded: Result<
        usize,
        CodecError,
    >)
        requires
            self.wf(),
        ensures
            match bounded {
                Ok(value) => value == count && self.offset + count * minimum_size
                    <= self.bytes@.len(),
                Err(error) => self.offset + count * minimum_size > self.bytes@.len() && error == (
                if count * minimum_size > usize::MAX {
                    CodecError::Length
                } else {
                    CodecError::Truncated
                }),
            },
    {
        match count.checked_mul(minimum_size) {
            None => Err(CodecError::Length),
            Some(size) => if size > self.remaining() {
                Err(CodecError::Truncated)
            } else {
                Ok(count)
            },
        }
    }

    fn spends(&mut self, count: usize) -> (spends: Vec<[u8; 32]>)
        requires
            old(self).wf(),
            old(self).offset + 32 * count <= old(self).bytes.len(),
        ensures
            final(self).moved(*old(self), 32 * count),
            parser::hashes_view(spends@) == spends_at(
                old(self).bytes@,
                old(self).offset as int,
                count as nat,
            ),
    {
        let mut spends: Vec<[u8; 32]> = Vec::with_capacity(count);
        let mut i: usize = 0;
        while i < count
            invariant
                i <= count,
                spends@.len() == i,
                old(self).offset + 32 * count <= old(self).bytes.len(),
                self.moved(*old(self), 32 * i),
                forall|j: int|
                    0 <= j < i ==> (#[trigger] spends@[j])@ == old(self).bytes@.subrange(
                        old(self).offset + 32 * j,
                        old(self).offset + 32 * j + 32,
                    ),
            decreases count - i,
        {
            let spend: [u8; 32] = bytes::get_array(self.bytes, self.offset);
            self.offset = self.offset + 32;
            spends.push(spend);
            i = i + 1;
        }
        assert(parser::hashes_view(spends@) =~= spends_at(
            old(self).bytes@,
            old(self).offset as int,
            count as nat,
        ));
        spends
    }

    fn outputs(&mut self, count: usize) -> (outputs: Vec<CompactSaplingOutput>)
        requires
            old(self).wf(),
            old(self).offset + 116 * count <= old(self).bytes.len(),
        ensures
            final(self).moved(*old(self), 116 * count),
            parser::outputs_view(outputs@) == outputs_at(
                old(self).bytes@,
                old(self).offset as int,
                count as nat,
            ),
    {
        let mut outputs: Vec<CompactSaplingOutput> = Vec::with_capacity(count);
        let mut i: usize = 0;
        while i < count
            invariant
                i <= count,
                outputs@.len() == i,
                old(self).offset + 116 * count <= old(self).bytes.len(),
                self.moved(*old(self), 116 * i),
                forall|j: int|
                    0 <= j < i ==> (#[trigger] outputs@[j])@ == output_at(
                        old(self).bytes@,
                        old(self).offset + 116 * j,
                    ),
            decreases count - i,
        {
            let output = CompactSaplingOutput {
                cmu: bytes::get_array(self.bytes, self.offset),
                ephemeral_key: bytes::get_array(self.bytes, self.offset + 32),
                ciphertext: bytes::get_array(self.bytes, self.offset + 64),
            };
            self.offset = self.offset + 116;
            outputs.push(output);
            i = i + 1;
        }
        assert(parser::outputs_view(outputs@) =~= outputs_at(
            old(self).bytes@,
            old(self).offset as int,
            count as nat,
        ));
        outputs
    }

    fn actions(&mut self, count: usize) -> (actions: Vec<CompactShieldedAction>)
        requires
            old(self).wf(),
            old(self).offset + 148 * count <= old(self).bytes.len(),
        ensures
            final(self).moved(*old(self), 148 * count),
            parser::actions_view(actions@) == actions_at(
                old(self).bytes@,
                old(self).offset as int,
                count as nat,
            ),
    {
        let mut actions: Vec<CompactShieldedAction> = Vec::with_capacity(count);
        let mut i: usize = 0;
        while i < count
            invariant
                i <= count,
                actions@.len() == i,
                old(self).offset + 148 * count <= old(self).bytes.len(),
                self.moved(*old(self), 148 * i),
                forall|j: int|
                    0 <= j < i ==> (#[trigger] actions@[j])@ == action_at(
                        old(self).bytes@,
                        old(self).offset + 148 * j,
                    ),
            decreases count - i,
        {
            let action = CompactShieldedAction {
                nullifier: bytes::get_array(self.bytes, self.offset),
                commitment: bytes::get_array(self.bytes, self.offset + 32),
                ephemeral_key: bytes::get_array(self.bytes, self.offset + 64),
                ciphertext: bytes::get_array(self.bytes, self.offset + 96),
            };
            self.offset = self.offset + 148;
            actions.push(action);
            i = i + 1;
        }
        assert(parser::actions_view(actions@) =~= actions_at(
            old(self).bytes@,
            old(self).offset as int,
            count as nat,
        ));
        actions
    }

    /// Reads one transaction.
    fn transaction(&mut self) -> (taken: Result<CompactTransaction, CodecError>)
        requires
            old(self).wf(),
            old(self).bytes@.len() <= MAX_RECORD_BYTES,
        ensures
            match taken {
                Ok(transaction) => {
                    let at = old(self).offset as int;
                    let items = items_len_at(old(self).bytes@, at);
                    &&& at + 56 + items <= old(self).bytes@.len()
                    &&& final(self).moved(*old(self), (56 + items) as int)
                    &&& transaction@ == transaction_at(old(self).bytes@, at)
                },
                Err(error) => read_transactions(old(self).bytes@, old(self).offset as int, 1)
                    == Err::<(Seq<TransactionView>, int), CodecError>(error),
            },
    {
        let index: u64 = self.u64()?;
        let txid: [u8; 32] = self.array()?;
        let spends: usize = self.len()?;
        let outputs: usize = self.len()?;
        let orchard: usize = self.len()?;
        let ironwood: usize = self.len()?;
        let required: usize = match checked_items_len(spends, outputs, orchard, ironwood) {
            None => return Err(CodecError::Length),
            Some(required) => required,
        };
        if required > self.remaining() {
            return Err(CodecError::Truncated);
        }
        let sapling_spends = self.spends(spends);
        let sapling_outputs = self.outputs(outputs);
        let orchard_actions = self.actions(orchard);
        let ironwood_actions = self.actions(ironwood);
        Ok(
            CompactTransaction {
                index,
                txid,
                sapling_spends,
                sapling_outputs,
                orchard_actions,
                ironwood_actions,
            },
        )
    }

    fn finish(self) -> (finished: Result<(), CodecError>)
        requires
            self.wf(),
        ensures
            match finished {
                Ok(()) => self.offset == self.bytes@.len(),
                Err(error) => self.offset < self.bytes@.len() && error
                    == CodecError::TrailingBytes,
            },
    {
        if self.remaining() == 0 {
            Ok(())
        } else {
            Err(CodecError::TrailingBytes)
        }
    }
}

/// What the items of a transaction take, or nothing where no `usize` holds it.
fn checked_items_len(spends: usize, outputs: usize, orchard: usize, ironwood: usize) -> (len:
    Option<usize>)
    ensures
        match len {
            Some(len) => len == items_len(
                spends as nat,
                outputs as nat,
                orchard as nat,
                ironwood as nat,
            ),
            None => items_len(spends as nat, outputs as nat, orchard as nat, ironwood as nat)
                > usize::MAX,
        },
{
    let spends_len: usize = spends.checked_mul(32)?;
    let outputs_len: usize = outputs.checked_mul(116)?;
    let orchard_len: usize = orchard.checked_mul(148)?;
    let ironwood_len: usize = ironwood.checked_mul(148)?;
    let len: usize = spends_len.checked_add(outputs_len)?;
    let len: usize = len.checked_add(orchard_len)?;
    len.checked_add(ironwood_len)
}

impl CompactBlockRecord {
    /// Reads an encoded record.
    pub fn decode(bytes: &[u8]) -> (decoded: Result<Self, CodecError>)
        ensures
            match decoded {
                Ok(record) => read_record(bytes@) == Ok::<RecordView, CodecError>(record@),
                Err(error) => read_record(bytes@) == Err::<RecordView, CodecError>(error),
            },
    {
        proof {
            reveal(read_record);
        }
        if bytes.len() > MAX_RECORD_BYTES {
            return Err(CodecError::Length);
        }
        let mut reader = Reader::new(bytes);
        let version: u8 = reader.u8()?;
        if version != BLOCK_FORMAT_VERSION {
            return Err(CodecError::Version { kind: "block", version });
        }
        let height: u32 = reader.u32()?;
        let hash: [u8; 32] = reader.array()?;
        let previous_hash: [u8; 32] = reader.array()?;
        let time: u32 = reader.u32()?;
        let end_tree_sizes = TreeSizes {
            sapling: reader.u32()?,
            orchard: reader.u32()?,
            ironwood: reader.u32()?,
        };
        let header_len: usize = reader.len()?;
        let transaction_count: usize = reader.len()?;
        let header = vstd::slice::slice_to_vec(reader.take(header_len)?);
        let capacity: usize = reader.bounded_count(transaction_count, TRANSACTION_FIXED_BYTES)?;
        let mut transactions: Vec<CompactTransaction> = Vec::with_capacity(capacity);
        let ghost start = reader.offset as int;
        let ghost whole = read_transactions(bytes@, start, transaction_count as nat);
        let mut i: usize = 0;
        assert(parser::transactions_view(transactions@) =~= Seq::empty());
        assert(whole == after_transactions(Seq::empty(), whole)) by {
            if let Ok((more, end)) = whole {
                assert(Seq::<TransactionView>::empty() + more =~= more);
            }
        }
        while i < transaction_count
            invariant
                i <= transaction_count,
                reader.wf(),
                reader.bytes == bytes,
                bytes@.len() <= MAX_RECORD_BYTES,
                whole == after_transactions(
                    parser::transactions_view(transactions@),
                    read_transactions(
                        bytes@,
                        reader.offset as int,
                        (transaction_count - i) as nat,
                    ),
                ),
                whole matches Err(error) ==> read_record(bytes@) == Err::<RecordView, CodecError>(
                    error,
                ),
            decreases transaction_count - i,
        {
            let ghost at = reader.offset as int;
            let ghost done = parser::transactions_view(transactions@);
            let transaction = match reader.transaction() {
                Ok(transaction) => transaction,
                Err(error) => {
                    proof {
                        reveal_with_fuel(read_transactions, 2);
                    }
                    return Err(error);
                },
            };
            transactions.push(transaction);
            i = i + 1;
            proof {
                let rest = read_transactions(
                    bytes@,
                    reader.offset as int,
                    (transaction_count - i) as nat,
                );
                assert(parser::transactions_view(transactions@) =~= done + seq![transaction@]);
                if let Ok((more, end)) = rest {
                    assert(done + (seq![transaction@] + more) =~= done + seq![transaction@] + more);
                }
            }
        }
        proof {
            if let Ok((more, end)) = read_transactions(bytes@, reader.offset as int, 0) {
                assert(parser::transactions_view(transactions@) + more
                    =~= parser::transactions_view(transactions@));
            }
        }
        reader.finish()?;
        Ok(
            CompactBlockRecord {
                height,
                hash,
                previous_hash,
                time,
                header,
                transactions,
                end_tree_sizes,
            },
        )
    }
}

/// `len` and the length of `transaction` together, or nothing where no `usize` holds it.
fn add_transaction_len(len: usize, transaction: &CompactTransaction) -> (sum: Option<usize>)
    ensures
        match sum {
            Some(sum) => sum == len + transaction_len(transaction@),
            None => len + transaction_len(transaction@) > usize::MAX,
        },
{
    let items: usize = checked_items_len(
        transaction.sapling_spends.len(),
        transaction.sapling_outputs.len(),
        transaction.orchard_actions.len(),
        transaction.ironwood_actions.len(),
    )?;
    let len: usize = len.checked_add(TRANSACTION_FIXED_BYTES)?;
    len.checked_add(items)
}

/// How long a record with this header and these transactions is when encoded.
pub fn encoded_record_len(header_len: usize, transactions: &[CompactTransaction]) -> (len: Result<
    usize,
    CodecError,
>)
    ensures
        match len {
            Ok(len) => len <= MAX_RECORD_BYTES && len == record_len(
                header_len as nat,
                parser::transactions_view(transactions@),
            ),
            Err(error) => error == CodecError::Length && record_len(
                header_len as nat,
                parser::transactions_view(transactions@),
            ) > MAX_RECORD_BYTES,
        },
{
    let ghost views = parser::transactions_view(transactions@);
    let mut len: usize = match RECORD_FIXED_BYTES.checked_add(header_len) {
        None => return Err(CodecError::Length),
        Some(len) => len,
    };
    let mut i: usize = 0;
    while i < transactions.len()
        invariant
            i <= transactions@.len(),
            views == parser::transactions_view(transactions@),
            len == record_len(header_len as nat, views.take(i as int)),
        decreases transactions@.len() - i,
    {
        proof {
            assert(views.take(i + 1).drop_last() =~= views.take(i as int));
            lemma_transactions_len_grows(views, i + 1);
        }
        len = match add_transaction_len(len, &transactions[i]) {
            None => return Err(CodecError::Length),
            Some(len) => len,
        };
        i = i + 1;
    }
    assert(views.take(i as int) =~= views);
    if len <= MAX_RECORD_BYTES {
        Ok(len)
    } else {
        Err(CodecError::Length)
    }
}

/// Fewer transactions are no longer.
proof fn lemma_transactions_len_grows(transactions: Seq<TransactionView>, i: int)
    requires
        0 <= i <= transactions.len(),
    ensures
        transactions_len(transactions.take(i)) <= transactions_len(transactions),
    decreases transactions.len() - i,
{
    if i == transactions.len() {
        assert(transactions.take(i) =~= transactions);
    } else {
        lemma_transactions_len_grows(transactions, i + 1);
        assert(transactions.take(i + 1).drop_last() =~= transactions.take(i));
    }
}

/// Appends a length as four bytes.
fn put_len(bytes: &mut Vec<u8>, value: usize) -> (put: Result<(), CodecError>)
    ensures
        match put {
            Ok(()) => value <= u32::MAX && final(bytes)@ == old(bytes)@ + bytes::be_bytes(
                value as nat,
                4,
            ),
            Err(error) => value > u32::MAX && error == CodecError::Length && *final(bytes) == *old(
                bytes,
            ),
        },
{
    match u32::try_from(value) {
        Ok(value) => {
            bytes::put_u32(bytes, value);
            Ok(())
        },
        Err(_) => Err(CodecError::Length),
    }
}

fn put_spends(bytes: &mut Vec<u8>, spends: &Vec<[u8; 32]>)
    ensures
        final(bytes)@ == old(bytes)@ + parser::hashes_view(spends@).flatten(),
{
    let ghost views = parser::hashes_view(spends@);
    let mut i: usize = 0;
    assert(bytes@ =~= old(bytes)@ + views.take(0).flatten());
    while i < spends.len()
        invariant
            i <= spends@.len(),
            views == parser::hashes_view(spends@),
            bytes@ == old(bytes)@ + views.take(i as int).flatten(),
        decreases spends@.len() - i,
    {
        bytes::append(bytes, spends[i].as_slice());
        proof {
            views.take(i as int).lemma_flatten_push(views[i as int]);
            assert(views.take(i + 1) =~= views.take(i as int).push(views[i as int]));
            assert(bytes@ =~= old(bytes)@ + views.take(i + 1).flatten());
        }
        i = i + 1;
    }
    assert(views.take(i as int) =~= views);
}

fn put_outputs(bytes: &mut Vec<u8>, outputs: &Vec<CompactSaplingOutput>)
    ensures
        final(bytes)@ == old(bytes)@ + outputs_bytes(parser::outputs_view(outputs@)),
{
    let ghost views = parser::outputs_view(outputs@).map_values(
        |output: OutputView| output_bytes(output),
    );
    let mut i: usize = 0;
    assert(bytes@ =~= old(bytes)@ + views.take(0).flatten());
    while i < outputs.len()
        invariant
            i <= outputs@.len(),
            views == parser::outputs_view(outputs@).map_values(
                |output: OutputView| output_bytes(output),
            ),
            bytes@ == old(bytes)@ + views.take(i as int).flatten(),
        decreases outputs@.len() - i,
    {
        let output = &outputs[i];
        bytes::append(bytes, output.cmu.as_slice());
        bytes::append(bytes, output.ephemeral_key.as_slice());
        bytes::append(bytes, output.ciphertext.as_slice());
        proof {
            assert(views[i as int] == output_bytes(output@));
            views.take(i as int).lemma_flatten_push(views[i as int]);
            assert(views.take(i + 1) =~= views.take(i as int).push(views[i as int]));
            assert(bytes@ =~= old(bytes)@ + views.take(i + 1).flatten());
        }
        i = i + 1;
    }
    assert(views.take(i as int) =~= views);
}

fn put_actions(bytes: &mut Vec<u8>, actions: &Vec<CompactShieldedAction>)
    ensures
        final(bytes)@ == old(bytes)@ + actions_bytes(parser::actions_view(actions@)),
{
    let ghost views = parser::actions_view(actions@).map_values(
        |action: ActionView| action_bytes(action),
    );
    let mut i: usize = 0;
    assert(bytes@ =~= old(bytes)@ + views.take(0).flatten());
    while i < actions.len()
        invariant
            i <= actions@.len(),
            views == parser::actions_view(actions@).map_values(
                |action: ActionView| action_bytes(action),
            ),
            bytes@ == old(bytes)@ + views.take(i as int).flatten(),
        decreases actions@.len() - i,
    {
        let action = &actions[i];
        bytes::append(bytes, action.nullifier.as_slice());
        bytes::append(bytes, action.commitment.as_slice());
        bytes::append(bytes, action.ephemeral_key.as_slice());
        bytes::append(bytes, action.ciphertext.as_slice());
        proof {
            assert(views[i as int] == action_bytes(action@));
            views.take(i as int).lemma_flatten_push(views[i as int]);
            assert(views.take(i + 1) =~= views.take(i as int).push(views[i as int]));
            assert(bytes@ =~= old(bytes)@ + views.take(i + 1).flatten());
        }
        i = i + 1;
    }
    assert(views.take(i as int) =~= views);
}

/// Appends one transaction.
fn put_transaction(bytes: &mut Vec<u8>, transaction: &CompactTransaction) -> (put: Result<
    (),
    CodecError,
>)
    requires
        transaction_len(transaction@) <= MAX_RECORD_BYTES,
    ensures
        put is Ok,
        final(bytes)@ == old(bytes)@ + transaction_bytes(transaction@),
{
    let ghost before = bytes@;
    let ghost view = transaction@;
    bytes::put_u64(bytes, transaction.index);
    bytes::append(bytes, transaction.txid.as_slice());
    put_len(bytes, transaction.sapling_spends.len())?;
    put_len(bytes, transaction.sapling_outputs.len())?;
    put_len(bytes, transaction.orchard_actions.len())?;
    put_len(bytes, transaction.ironwood_actions.len())?;
    assert(bytes@ =~= before + transaction_head(view));
    put_spends(bytes, &transaction.sapling_spends);
    put_outputs(bytes, &transaction.sapling_outputs);
    put_actions(bytes, &transaction.orchard_actions);
    put_actions(bytes, &transaction.ironwood_actions);
    assert(bytes@ =~= before + transaction_bytes(view));
    Ok(())
}

impl CompactBlockRecord {
    /// Encodes the record.
    pub fn encode(&self) -> (encoded: Result<Vec<u8>, CodecError>)
        ensures
            match encoded {
                Ok(bytes) => record_len(self@.header.len(), self@.transactions) <= MAX_RECORD_BYTES
                    && bytes@ == record_bytes(self@),
                Err(error) => record_len(self@.header.len(), self@.transactions) > MAX_RECORD_BYTES
                    && error == CodecError::Length,
            },
    {
        proof {
            reveal(record_bytes);
        }
        let encoded_len: usize = encoded_record_len(
            self.header.len(),
            self.transactions.as_slice(),
        )?;
        let ghost views = self@.transactions.map_values(
            |transaction: TransactionView| transaction_bytes(transaction),
        );
        proof {
            lemma_transactions_len_counts(self@.transactions);
        }
        let mut bytes: Vec<u8> = Vec::with_capacity(encoded_len);
        bytes.push(BLOCK_FORMAT_VERSION);
        bytes::put_u32(&mut bytes, self.height);
        bytes::append(&mut bytes, self.hash.as_slice());
        bytes::append(&mut bytes, self.previous_hash.as_slice());
        bytes::put_u32(&mut bytes, self.time);
        bytes::put_u32(&mut bytes, self.end_tree_sizes.sapling);
        bytes::put_u32(&mut bytes, self.end_tree_sizes.orchard);
        bytes::put_u32(&mut bytes, self.end_tree_sizes.ironwood);
        put_len(&mut bytes, self.header.len())?;
        put_len(&mut bytes, self.transactions.len())?;
        assert(bytes@ =~= record_head(self@));
        bytes::append(&mut bytes, self.header.as_slice());
        let ghost head = record_head(self@) + self.header@;
        let mut i: usize = 0;
        assert(bytes@ =~= head + views.take(0).flatten());
        while i < self.transactions.len()
            invariant
                i <= self.transactions@.len(),
                views == self@.transactions.map_values(
                    |transaction: TransactionView| transaction_bytes(transaction),
                ),
                transactions_len(self@.transactions) <= MAX_RECORD_BYTES,
                record_len(self@.header.len(), self@.transactions) <= MAX_RECORD_BYTES,
                bytes@ == head + views.take(i as int).flatten(),
            decreases self.transactions@.len() - i,
        {
            proof {
                lemma_transactions_len_grows(self@.transactions, i + 1);
                assert(self@.transactions.take(i + 1).last() == self.transactions@[i as int]@);
            }
            put_transaction(&mut bytes, &self.transactions[i])?;
            proof {
                assert(views[i as int] == transaction_bytes(self.transactions@[i as int]@));
                views.take(i as int).lemma_flatten_push(views[i as int]);
                assert(views.take(i + 1) =~= views.take(i as int).push(views[i as int]));
                assert(bytes@ =~= head + views.take(i + 1).flatten());
            }
            i = i + 1;
        }
        assert(views.take(i as int) =~= views);
        Ok(bytes)
    }
}

/// Every transaction takes at least its fixed part.
proof fn lemma_transactions_len_counts(transactions: Seq<TransactionView>)
    ensures
        transactions_len(transactions) >= 56 * transactions.len(),
    decreases transactions.len(),
{
    if transactions.len() > 0 {
        lemma_transactions_len_counts(transactions.drop_last());
    }
}

// ---------------------------------------------------------------------------
// Reading undoes writing, and writing undoes reading
// ---------------------------------------------------------------------------

/// The widths of a record's fields are those that the format gives them.
pub proof fn lemma_record_fits(record: CompactBlockRecord)
    ensures
        record_fits(record@),
{
}

proof fn lemma_items_bytes_len(transaction: TransactionView)
    requires
        transaction_fits(transaction),
    ensures
        transaction.sapling_spends.flatten().len() == 32 * transaction.sapling_spends.len(),
        outputs_bytes(transaction.sapling_outputs).len() == 116 * transaction.sapling_outputs.len(),
        actions_bytes(transaction.orchard_actions).len() == 148 * transaction.orchard_actions.len(),
        actions_bytes(transaction.ironwood_actions).len() == 148
            * transaction.ironwood_actions.len(),
{
    bytes::lemma_flatten_fixed_len(transaction.sapling_spends, 32);
    bytes::lemma_flatten_fixed_len(
        transaction.sapling_outputs.map_values(|output: OutputView| output_bytes(output)),
        116,
    );
    bytes::lemma_flatten_fixed_len(
        transaction.orchard_actions.map_values(|action: ActionView| action_bytes(action)),
        148,
    );
    bytes::lemma_flatten_fixed_len(
        transaction.ironwood_actions.map_values(|action: ActionView| action_bytes(action)),
        148,
    );
}

proof fn lemma_transaction_bytes_len(transaction: TransactionView)
    requires
        transaction_fits(transaction),
    ensures
        transaction_head(transaction).len() == 56,
        transaction_bytes(transaction).len() == transaction_len(transaction),
{
    lemma_items_bytes_len(transaction);
    bytes::lemma_be_bytes_len(transaction.index as nat, 8);
    bytes::lemma_be_bytes_len(transaction.sapling_spends.len(), 4);
    bytes::lemma_be_bytes_len(transaction.sapling_outputs.len(), 4);
    bytes::lemma_be_bytes_len(transaction.orchard_actions.len(), 4);
    bytes::lemma_be_bytes_len(transaction.ironwood_actions.len(), 4);
}

/// What lies at `from` in a part that lies at `at`.
proof fn lemma_within(bytes: Seq<u8>, at: int, part: Seq<u8>, from: int, to: int)
    requires
        0 <= at,
        at + part.len() <= bytes.len(),
        bytes.subrange(at, at + part.len()) == part,
        0 <= from <= to <= part.len(),
    ensures
        bytes.subrange(at + from, at + to) == part.subrange(from, to),
{
    assert(bytes.subrange(at, at + part.len()).subrange(from, to) =~= bytes.subrange(
        at + from,
        at + to,
    ));
}

proof fn lemma_number_within(bytes: Seq<u8>, at: int, number: nat)
    requires
        0 <= at,
        at + 4 <= bytes.len(),
        number <= u32::MAX,
        bytes.subrange(at, at + 4) == bytes::be_bytes(number, 4),
    ensures
        number_at(bytes, at) == number,
{
    bytes::lemma_byte_limits();
    bytes::lemma_be_round_trip(number, 4);
}

proof fn lemma_spends_at(bytes: Seq<u8>, at: int, spends: Seq<Seq<u8>>)
    requires
        forall|i: int| 0 <= i < spends.len() ==> (#[trigger] spends[i]).len() == 32,
        0 <= at,
        at + spends.flatten().len() <= bytes.len(),
        bytes.subrange(at, at + spends.flatten().len()) == spends.flatten(),
    ensures
        spends_at(bytes, at, spends.len()) == spends,
{
    assert forall|i: int| 0 <= i < spends.len() implies spends_at(bytes, at, spends.len())[i]
        == spends[i] by {
        bytes::lemma_flatten_fixed(spends, 32, i);
        lemma_within(bytes, at, spends.flatten(), 32 * i, 32 * i + 32);
    }
    assert(spends_at(bytes, at, spends.len()) =~= spends);
}

proof fn lemma_outputs_at(bytes: Seq<u8>, at: int, outputs: Seq<OutputView>)
    requires
        forall|i: int| 0 <= i < outputs.len() ==> output_fits(#[trigger] outputs[i]),
        0 <= at,
        at + outputs_bytes(outputs).len() <= bytes.len(),
        bytes.subrange(at, at + outputs_bytes(outputs).len()) == outputs_bytes(outputs),
    ensures
        outputs_at(bytes, at, outputs.len()) == outputs,
{
    let items = outputs.map_values(|output: OutputView| output_bytes(output));
    assert forall|i: int| 0 <= i < outputs.len() implies outputs_at(bytes, at, outputs.len())[i]
        == outputs[i] by {
        bytes::lemma_flatten_fixed(items, 116, i);
        let from = 116 * i;
        lemma_within(bytes, at, items.flatten(), from, from + 32);
        lemma_within(bytes, at, items.flatten(), from + 32, from + 64);
        lemma_within(bytes, at, items.flatten(), from + 64, from + 116);
        let item = items.flatten().subrange(from, from + 116);
        assert(item == output_bytes(outputs[i]));
        assert(items.flatten().subrange(from, from + 32) =~= item.subrange(0, 32));
        assert(items.flatten().subrange(from + 32, from + 64) =~= item.subrange(32, 64));
        assert(items.flatten().subrange(from + 64, from + 116) =~= item.subrange(64, 116));
        assert(item.subrange(0, 32) =~= outputs[i].cmu);
        assert(item.subrange(32, 64) =~= outputs[i].ephemeral_key);
        assert(item.subrange(64, 116) =~= outputs[i].ciphertext);
    }
    assert(outputs_at(bytes, at, outputs.len()) =~= outputs);
}

proof fn lemma_actions_at(bytes: Seq<u8>, at: int, actions: Seq<ActionView>)
    requires
        forall|i: int| 0 <= i < actions.len() ==> action_fits(#[trigger] actions[i]),
        0 <= at,
        at + actions_bytes(actions).len() <= bytes.len(),
        bytes.subrange(at, at + actions_bytes(actions).len()) == actions_bytes(actions),
    ensures
        actions_at(bytes, at, actions.len()) == actions,
{
    let items = actions.map_values(|action: ActionView| action_bytes(action));
    assert forall|i: int| 0 <= i < actions.len() implies actions_at(bytes, at, actions.len())[i]
        == actions[i] by {
        bytes::lemma_flatten_fixed(items, 148, i);
        let from = 148 * i;
        lemma_within(bytes, at, items.flatten(), from, from + 32);
        lemma_within(bytes, at, items.flatten(), from + 32, from + 64);
        lemma_within(bytes, at, items.flatten(), from + 64, from + 96);
        lemma_within(bytes, at, items.flatten(), from + 96, from + 148);
        let item = items.flatten().subrange(from, from + 148);
        assert(item == action_bytes(actions[i]));
        assert(items.flatten().subrange(from, from + 32) =~= item.subrange(0, 32));
        assert(items.flatten().subrange(from + 32, from + 64) =~= item.subrange(32, 64));
        assert(items.flatten().subrange(from + 64, from + 96) =~= item.subrange(64, 96));
        assert(items.flatten().subrange(from + 96, from + 148) =~= item.subrange(96, 148));
        assert(item.subrange(0, 32) =~= actions[i].nullifier);
        assert(item.subrange(32, 64) =~= actions[i].commitment);
        assert(item.subrange(64, 96) =~= actions[i].ephemeral_key);
        assert(item.subrange(96, 148) =~= actions[i].ciphertext);
    }
    assert(actions_at(bytes, at, actions.len()) =~= actions);
}

/// A transaction is read where it was written.
proof fn lemma_transaction_at(bytes: Seq<u8>, at: int, transaction: TransactionView)
    requires
        transaction_fits(transaction),
        transaction_len(transaction) <= u32::MAX,
        0 <= at,
        at + transaction_len(transaction) <= bytes.len(),
        bytes.subrange(at, at + transaction_len(transaction)) == transaction_bytes(transaction),
    ensures
        transaction_at(bytes, at) == transaction,
        56 + items_len_at(bytes, at) == transaction_len(transaction),
{
    let whole = transaction_bytes(transaction);
    let head = transaction_head(transaction);
    let spends = transaction.sapling_spends.len();
    let outputs = transaction.sapling_outputs.len();
    let orchard = transaction.orchard_actions.len();
    let ironwood = transaction.ironwood_actions.len();
    lemma_transaction_bytes_len(transaction);
    lemma_items_bytes_len(transaction);
    bytes::lemma_be_bytes_len(transaction.index as nat, 8);
    bytes::lemma_be_bytes_len(spends, 4);
    bytes::lemma_be_bytes_len(outputs, 4);
    bytes::lemma_be_bytes_len(orchard, 4);
    bytes::lemma_be_bytes_len(ironwood, 4);
    assert(whole.subrange(0, 56) =~= head);
    lemma_within(bytes, at, whole, 0, 56);
    lemma_within(bytes, at, head, 0, 8);
    lemma_within(bytes, at, head, 8, 40);
    lemma_within(bytes, at, head, 40, 44);
    lemma_within(bytes, at, head, 44, 48);
    lemma_within(bytes, at, head, 48, 52);
    lemma_within(bytes, at, head, 52, 56);
    assert(head.subrange(0, 8) =~= bytes::be_bytes(transaction.index as nat, 8));
    assert(head.subrange(8, 40) =~= transaction.txid);
    assert(head.subrange(40, 44) =~= bytes::be_bytes(spends, 4));
    assert(head.subrange(44, 48) =~= bytes::be_bytes(outputs, 4));
    assert(head.subrange(48, 52) =~= bytes::be_bytes(orchard, 4));
    assert(head.subrange(52, 56) =~= bytes::be_bytes(ironwood, 4));
    bytes::lemma_byte_limits();
    bytes::lemma_be_round_trip(transaction.index as nat, 8);
    lemma_number_within(bytes, at + 40, spends);
    lemma_number_within(bytes, at + 44, outputs);
    lemma_number_within(bytes, at + 48, orchard);
    lemma_number_within(bytes, at + 52, ironwood);
    let outputs_start = 56 + 32 * spends;
    let orchard_start = outputs_start + 116 * outputs;
    let ironwood_start = orchard_start + 148 * orchard;
    let end = ironwood_start + 148 * ironwood;
    assert(whole.subrange(56, outputs_start as int) =~= transaction.sapling_spends.flatten());
    assert(whole.subrange(outputs_start as int, orchard_start as int) =~= outputs_bytes(
        transaction.sapling_outputs,
    ));
    assert(whole.subrange(orchard_start as int, ironwood_start as int) =~= actions_bytes(
        transaction.orchard_actions,
    ));
    assert(whole.subrange(ironwood_start as int, end as int) =~= actions_bytes(
        transaction.ironwood_actions,
    ));
    lemma_within(bytes, at, whole, 56, outputs_start as int);
    lemma_within(bytes, at, whole, outputs_start as int, orchard_start as int);
    lemma_within(bytes, at, whole, orchard_start as int, ironwood_start as int);
    lemma_within(bytes, at, whole, ironwood_start as int, end as int);
    lemma_spends_at(bytes, at + 56, transaction.sapling_spends);
    lemma_outputs_at(bytes, at + outputs_start, transaction.sapling_outputs);
    lemma_actions_at(bytes, at + orchard_start, transaction.orchard_actions);
    lemma_actions_at(bytes, at + ironwood_start, transaction.ironwood_actions);
}

proof fn lemma_transactions_len_first(transactions: Seq<TransactionView>)
    requires
        transactions.len() > 0,
    ensures
        transactions_len(transactions) == transaction_len(transactions[0]) + transactions_len(
            transactions.drop_first(),
        ),
    decreases transactions.len(),
{
    if transactions.len() == 1 {
        assert(transactions.drop_last() =~= Seq::empty());
        assert(transactions.drop_first() =~= Seq::empty());
    } else {
        lemma_transactions_len_first(transactions.drop_last());
        assert(transactions.drop_last().drop_first() =~= transactions.drop_first().drop_last());
    }
}

proof fn lemma_transactions_bytes_first(transactions: Seq<TransactionView>)
    requires
        transactions.len() > 0,
    ensures
        transactions_bytes(transactions) == transaction_bytes(transactions[0])
            + transactions_bytes(transactions.drop_first()),
{
    let encode = |transaction: TransactionView| transaction_bytes(transaction);
    assert(transactions.map_values(encode).drop_first() =~= transactions.drop_first().map_values(
        encode,
    ));
}

proof fn lemma_transactions_bytes_len(transactions: Seq<TransactionView>)
    requires
        forall|i: int|
            0 <= i < transactions.len() ==> transaction_fits(#[trigger] transactions[i]),
    ensures
        transactions_bytes(transactions).len() == transactions_len(transactions),
    decreases transactions.len(),
{
    if transactions.len() > 0 {
        lemma_transactions_len_first(transactions);
        lemma_transactions_bytes_first(transactions);
        lemma_transaction_bytes_len(transactions[0]);
        lemma_transactions_bytes_len(transactions.drop_first());
    }
}

/// Transactions are read where they were written.
proof fn lemma_read_transactions(bytes: Seq<u8>, at: int, transactions: Seq<TransactionView>)
    requires
        forall|i: int|
            0 <= i < transactions.len() ==> transaction_fits(#[trigger] transactions[i]),
        bytes.len() <= MAX_RECORD_BYTES,
        0 <= at,
        at + transactions_len(transactions) <= bytes.len(),
        bytes.subrange(at, at + transactions_len(transactions)) == transactions_bytes(transactions),
    ensures
        read_transactions(bytes, at, transactions.len()) == Ok::<
            (Seq<TransactionView>, int),
            CodecError,
        >((transactions, at + transactions_len(transactions))),
    decreases transactions.len(),
{
    if transactions.len() == 0 {
        assert(transactions =~= Seq::empty());
    } else {
        let first = transactions[0];
        let rest = transactions.drop_first();
        let next = at + transaction_len(first);
        let whole = transactions_bytes(transactions);
        lemma_transactions_len_first(transactions);
        lemma_transactions_bytes_first(transactions);
        lemma_transaction_bytes_len(first);
        lemma_transactions_bytes_len(transactions);
        lemma_transactions_bytes_len(rest);
        lemma_within(bytes, at, whole, 0, transaction_len(first) as int);
        lemma_within(bytes, at, whole, transaction_len(first) as int, whole.len() as int);
        assert(whole.subrange(0, transaction_len(first) as int) =~= transaction_bytes(first));
        assert(whole.subrange(transaction_len(first) as int, whole.len() as int)
            =~= transactions_bytes(rest));
        lemma_transaction_at(bytes, at, first);
        lemma_read_transactions(bytes, next, rest);
        assert(seq![first] + rest =~= transactions);
    }
}

proof fn lemma_record_head(record: RecordView)
    requires
        record_fits(record),
    ensures
        ({
            let head = record_head(record);
            let sizes = record.end_tree_sizes;
            &&& head.len() == 93
            &&& head[0] == BLOCK_FORMAT_VERSION
            &&& head.subrange(1, 5) == bytes::be_bytes(record.height as nat, 4)
            &&& head.subrange(5, 37) == record.hash
            &&& head.subrange(37, 69) == record.previous_hash
            &&& head.subrange(69, 73) == bytes::be_bytes(record.time as nat, 4)
            &&& head.subrange(73, 77) == bytes::be_bytes(sizes.sapling as nat, 4)
            &&& head.subrange(77, 81) == bytes::be_bytes(sizes.orchard as nat, 4)
            &&& head.subrange(81, 85) == bytes::be_bytes(sizes.ironwood as nat, 4)
            &&& head.subrange(85, 89) == bytes::be_bytes(record.header.len(), 4)
            &&& head.subrange(89, 93) == bytes::be_bytes(record.transactions.len(), 4)
        }),
{
    let sizes = record.end_tree_sizes;
    bytes::lemma_be_bytes_len(record.height as nat, 4);
    bytes::lemma_be_bytes_len(record.time as nat, 4);
    bytes::lemma_be_bytes_len(sizes.sapling as nat, 4);
    bytes::lemma_be_bytes_len(sizes.orchard as nat, 4);
    bytes::lemma_be_bytes_len(sizes.ironwood as nat, 4);
    bytes::lemma_be_bytes_len(record.header.len(), 4);
    bytes::lemma_be_bytes_len(record.transactions.len(), 4);
}

/// A record takes as many bytes as its length says.
pub proof fn law_record_length(record: RecordView)
    requires
        record_fits(record),
    ensures
        record_bytes(record).len() == record_len(record.header.len(), record.transactions),
{
    reveal(record_bytes);
    lemma_record_head(record);
    lemma_transactions_bytes_len(record.transactions);
}

/// Decoding an encoded record gives the record back.
pub proof fn law_decode_undoes_encode(record: RecordView)
    requires
        record_fits(record),
        record_len(record.header.len(), record.transactions) <= MAX_RECORD_BYTES,
    ensures
        read_record(record_bytes(record)) == Ok::<RecordView, CodecError>(record),
{
    reveal(record_bytes);
    reveal(read_record);
    let whole = record_bytes(record);
    let head = record_head(record);
    let start = 93 + record.header.len();
    lemma_record_head(record);
    law_record_length(record);
    lemma_transactions_bytes_len(record.transactions);
    lemma_transactions_len_counts(record.transactions);
    assert(whole.subrange(0, 93) =~= head);
    lemma_within(whole, 0, head, 1, 5);
    lemma_within(whole, 0, head, 5, 37);
    lemma_within(whole, 0, head, 37, 69);
    lemma_within(whole, 0, head, 69, 73);
    lemma_within(whole, 0, head, 73, 77);
    lemma_within(whole, 0, head, 77, 81);
    lemma_within(whole, 0, head, 81, 85);
    lemma_within(whole, 0, head, 85, 89);
    lemma_within(whole, 0, head, 89, 93);
    lemma_number_within(whole, 1, record.height as nat);
    lemma_number_within(whole, 69, record.time as nat);
    lemma_number_within(whole, 73, record.end_tree_sizes.sapling as nat);
    lemma_number_within(whole, 77, record.end_tree_sizes.orchard as nat);
    lemma_number_within(whole, 81, record.end_tree_sizes.ironwood as nat);
    lemma_number_within(whole, 85, record.header.len());
    lemma_number_within(whole, 89, record.transactions.len());
    assert(whole.subrange(93, start as int) =~= record.header);
    assert(whole.subrange(start as int, whole.len() as int) =~= transactions_bytes(
        record.transactions,
    ));
    lemma_read_transactions(whole, start as int, record.transactions);
}

proof fn lemma_number_written(bytes: Seq<u8>, at: int)
    requires
        0 <= at,
        at + 4 <= bytes.len(),
    ensures
        number_at(bytes, at) <= u32::MAX,
        bytes::be_bytes(number_at(bytes, at), 4) == bytes.subrange(at, at + 4),
{
    bytes::lemma_byte_limits();
    bytes::lemma_be_value_round_trip(bytes.subrange(at, at + 4));
}

/// A transaction is written as it was read.
proof fn lemma_transaction_written(bytes: Seq<u8>, at: int)
    requires
        0 <= at,
        at + 56 + items_len_at(bytes, at) <= bytes.len(),
    ensures
        transaction_fits(transaction_at(bytes, at)),
        transaction_len(transaction_at(bytes, at)) == 56 + items_len_at(bytes, at),
        transaction_bytes(transaction_at(bytes, at)) == bytes.subrange(
            at,
            at + 56 + items_len_at(bytes, at),
        ),
{
    let transaction = transaction_at(bytes, at);
    let spends = number_at(bytes, at + 40);
    let outputs = number_at(bytes, at + 44);
    let orchard = number_at(bytes, at + 48);
    let ironwood = number_at(bytes, at + 52);
    let outputs_start = at + 56 + 32 * spends;
    let orchard_start = outputs_start + 116 * outputs;
    let ironwood_start = orchard_start + 148 * orchard;
    let end = ironwood_start + 148 * ironwood;
    bytes::lemma_byte_limits();
    bytes::lemma_be_value_round_trip(bytes.subrange(at, at + 8));
    lemma_number_written(bytes, at + 40);
    lemma_number_written(bytes, at + 44);
    lemma_number_written(bytes, at + 48);
    lemma_number_written(bytes, at + 52);
    assert(transaction_head(transaction) =~= bytes.subrange(at, at + 56));
    bytes::lemma_flatten_pieces(bytes, at + 56, 32, spends);
    assert(transaction.sapling_spends =~= Seq::new(
        spends,
        |i: int| bytes.subrange(at + 56 + 32nat * i, at + 56 + 32nat * i + 32nat),
    ));
    bytes::lemma_flatten_pieces(bytes, outputs_start, 116, outputs);
    let output_pieces = Seq::new(
        outputs,
        |i: int| bytes.subrange(outputs_start + 116nat * i, outputs_start + 116nat * i + 116nat),
    );
    let output_items = transaction.sapling_outputs.map_values(
        |output: OutputView| output_bytes(output),
    );
    assert forall|i: int| 0 <= i < outputs implies output_items[i] == output_pieces[i] by {
        assert(output_items[i] =~= output_pieces[i]);
    }
    assert(output_items =~= output_pieces);
    lemma_actions_written(bytes, orchard_start, orchard);
    lemma_actions_written(bytes, ironwood_start, ironwood);
    assert(transaction_bytes(transaction) =~= bytes.subrange(at, end));
}

proof fn lemma_actions_written(bytes: Seq<u8>, at: int, count: nat)
    requires
        0 <= at,
        at + 148 * count <= bytes.len(),
    ensures
        actions_bytes(actions_at(bytes, at, count)) == bytes.subrange(at, at + 148 * count),
{
    bytes::lemma_flatten_pieces(bytes, at, 148, count);
    let pieces = Seq::new(
        count,
        |i: int| bytes.subrange(at + 148nat * i, at + 148nat * i + 148nat),
    );
    let items = actions_at(bytes, at, count).map_values(|action: ActionView| action_bytes(action));
    assert forall|i: int| 0 <= i < count implies items[i] == pieces[i] by {
        assert(items[i] =~= pieces[i]);
    }
    assert(items =~= pieces);
}

/// Transactions are written as they were read.
proof fn lemma_transactions_written(bytes: Seq<u8>, at: int, count: nat)
    requires
        0 <= at <= bytes.len(),
        read_transactions(bytes, at, count) is Ok,
    ensures
        ({
            let (transactions, end) = read_transactions(bytes, at, count)->Ok_0;
            &&& transactions.len() == count
            &&& at <= end <= bytes.len()
            &&& end == at + transactions_len(transactions)
            &&& transactions_bytes(transactions) == bytes.subrange(at, end)
            &&& forall|i: int|
                0 <= i < transactions.len() ==> transaction_fits(#[trigger] transactions[i])
        }),
    decreases count,
{
    let (transactions, end) = read_transactions(bytes, at, count)->Ok_0;
    if count == 0 {
        assert(transactions_bytes(transactions) =~= bytes.subrange(at, end));
    } else {
        let next = at + 56 + items_len_at(bytes, at);
        lemma_transaction_written(bytes, at);
        lemma_transactions_written(bytes, next, (count - 1) as nat);
        let (rest, rest_end) = read_transactions(bytes, next, (count - 1) as nat)->Ok_0;
        assert(transactions.drop_first() =~= rest);
        lemma_transactions_len_first(transactions);
        lemma_transactions_bytes_first(transactions);
        assert(bytes.subrange(at, next) + bytes.subrange(next, end) =~= bytes.subrange(at, end));
    }
}

/// Bytes that decode are the encoding of what they decode to, so no two encodings decode alike.
pub proof fn law_encode_undoes_decode(bytes: Seq<u8>)
    requires
        read_record(bytes) is Ok,
    ensures
        ({
            let record = read_record(bytes)->Ok_0;
            &&& record_fits(record)
            &&& record_len(record.header.len(), record.transactions) == bytes.len()
            &&& bytes.len() <= MAX_RECORD_BYTES
            &&& record_bytes(record) == bytes
        }),
{
    reveal(record_bytes);
    reveal(read_record);
    let record = read_record(bytes)->Ok_0;
    let start = (93 + number_at(bytes, 85)) as int;
    lemma_number_written(bytes, 1);
    lemma_number_written(bytes, 69);
    lemma_number_written(bytes, 73);
    lemma_number_written(bytes, 77);
    lemma_number_written(bytes, 81);
    lemma_number_written(bytes, 85);
    lemma_number_written(bytes, 89);
    lemma_transactions_written(bytes, start, number_at(bytes, 89));
    assert(record_head(record) =~= bytes.subrange(0, 93));
    assert(record_bytes(record) =~= bytes);
}

// ---------------------------------------------------------------------------
// Sealed ranges
// ---------------------------------------------------------------------------

pub open spec fn records_view(records: Seq<CompactBlockRecord>) -> Seq<RecordView> {
    Seq::new(records.len(), |i: int| records[i]@)
}

/// `after` is the block on top of `before`.
pub open spec fn linked(before: RecordView, after: RecordView) -> bool {
    before.height + 1 == after.height && after.previous_hash == before.hash
}

/// Each record is the block on top of the one before it.
pub open spec fn is_chain(records: Seq<RecordView>) -> bool {
    forall|i: int, j: int|
        0 <= i && j == i + 1 && j < records.len() ==> linked(
            #[trigger] records[i],
            #[trigger] records[j],
        )
}

/// The blocks of one sealed range: as many as a range has, from a multiple of that number.
pub open spec fn is_range(records: Seq<RecordView>) -> bool {
    records.len() == RANGE_SIZE && records[0].height as int % 1000 == 0 && is_chain(records)
}

pub open spec fn is_encodable(record: RecordView) -> bool {
    record_len(record.header.len(), record.transactions) <= MAX_RECORD_BYTES
}

pub open spec fn all_encodable(records: Seq<RecordView>) -> bool {
    forall|i: int| 0 <= i < records.len() ==> is_encodable(#[trigger] records[i])
}

/// An encoded record behind its length.
pub open spec fn envelope(record: RecordView) -> Seq<u8> {
    bytes::be_bytes(record_bytes(record).len(), 4) + record_bytes(record)
}

pub open spec fn envelopes(records: Seq<RecordView>) -> Seq<Seq<u8>> {
    records.map_values(|record: RecordView| envelope(record))
}

/// Where the envelope of record `i` begins in the body of a range.
pub open spec fn range_offset(records: Seq<RecordView>, i: int) -> nat {
    envelopes(records).take(i).flatten().len()
}

/// Version, first and last height, hash before the range and hash at its end.
pub open spec fn range_head(records: Seq<RecordView>) -> Seq<u8> {
    seq![RANGE_FORMAT_VERSION] + bytes::be_bytes(records[0].height as nat, 4) + bytes::be_bytes(
        records.last().height as nat,
        4,
    ) + records[0].previous_hash + records.last().hash
}

pub open spec fn range_offsets(records: Seq<RecordView>) -> Seq<Seq<u8>> {
    Seq::new(records.len() + 1, |i: int| bytes::be_bytes(range_offset(records, i), 4))
}

/// An encoded range.
#[verifier::opaque]
pub open spec fn range_bytes(records: Seq<RecordView>) -> Seq<u8> {
    range_head(records) + range_offsets(records).flatten() + envelopes(records).flatten()
}

/// Where the body of an encoded range begins.
pub open spec fn range_body_start() -> int {
    4077
}

/// Offset `i` in the offset table of an encoded range.
pub open spec fn range_offset_at(bytes: Seq<u8>, i: int) -> nat {
    number_at(bytes, 73 + 4 * i)
}

/// The offsets begin at zero, do not decrease, and end where the body ends.
pub open spec fn range_offsets_fit(bytes: Seq<u8>) -> bool {
    &&& range_offset_at(bytes, 0) == 0
    &&& range_offset_at(bytes, 1000) == bytes.len() - range_body_start()
    &&& forall|i: int, j: int|
        0 <= i && j == i + 1 && j <= 1000 ==> #[trigger] range_offset_at(bytes, i)
            <= #[trigger] range_offset_at(bytes, j)
}

/// The record in an envelope, or what is wrong with it.
pub open spec fn read_envelope(bytes: Seq<u8>) -> Result<RecordView, CodecError> {
    let len = number_at(bytes, 0);
    if bytes.len() < 4 {
        Err(CodecError::Truncated)
    } else if 4 + len > bytes.len() {
        Err(take_error(4, len))
    } else {
        match read_record(bytes.subrange(4, (4 + len) as int)) {
            Err(error) => Err(error),
            Ok(record) => if 4 + len < bytes.len() {
                Err(CodecError::TrailingBytes)
            } else {
                Ok(record)
            },
        }
    }
}

/// Record `index` of an encoded range, or what is wrong with the range.
#[verifier::opaque]
pub open spec fn read_range_record(bytes: Seq<u8>, index: int) -> Result<RecordView, CodecError> {
    let start = number_at(bytes, 1);
    let end = number_at(bytes, 5);
    if index >= RANGE_SIZE {
        Err(CodecError::RangeIndex)
    } else if bytes.len() == 0 {
        Err(CodecError::Truncated)
    } else if bytes[0] != RANGE_FORMAT_VERSION {
        Err(CodecError::Version { kind: "range", version: bytes[0] })
    } else if bytes.len() < 73 {
        Err(CodecError::Truncated)
    } else if start % 1000 != 0 || start + 999 != end {
        Err(CodecError::InvalidRange)
    } else if bytes.len() < range_body_start() {
        Err(CodecError::Truncated)
    } else if !range_offsets_fit(bytes) {
        Err(CodecError::Length)
    } else {
        match read_envelope(
            bytes.subrange(
                range_body_start() + range_offset_at(bytes, index),
                range_body_start() + range_offset_at(bytes, index + 1),
            ),
        ) {
            Err(error) => Err(error),
            Ok(record) => if record.height != start + index || (index == 0 && record.previous_hash
                != bytes.subrange(9, 41)) || (index == 999 && record.hash != bytes.subrange(
                41,
                73,
            )) {
                Err(CodecError::InvalidRange)
            } else {
                Ok(record)
            },
        }
    }
}

/// Whether the records are the blocks of one range.
fn is_sealable(records: &[CompactBlockRecord]) -> (sealable: bool)
    ensures
        sealable == is_range(records_view(records@)),
{
    let ghost views = records_view(records@);
    if records.len() != RANGE_SIZE as usize {
        return false;
    }
    if records[0].height % RANGE_SIZE != 0 {
        return false;
    }
    let mut i: usize = 1;
    while i < records.len()
        invariant
            1 <= i <= records@.len(),
            views == records_view(records@),
            forall|k: int, j: int|
                0 <= k && j == k + 1 && j < i ==> linked(#[trigger] views[k], #[trigger] views[j]),
        decreases records@.len() - i,
    {
        let before = &records[i - 1];
        let after = &records[i];
        assert(views[i - 1] == before@ && views[i as int] == after@);
        if before.height.checked_add(1) != Some(after.height) {
            return false;
        }
        if !bytes::same_bytes(after.previous_hash.as_slice(), before.hash.as_slice()) {
            return false;
        }
        i = i + 1;
    }
    true
}

/// Encodes the blocks of one range.
pub fn encode_range(records: &[CompactBlockRecord]) -> (encoded: Result<Vec<u8>, CodecError>)
    ensures
        match encoded {
            Ok(bytes) => is_range(records_view(records@)) && all_encodable(records_view(records@))
                && bytes@ == range_bytes(records_view(records@)),
            Err(CodecError::InvalidRange) => !is_range(records_view(records@)),
            Err(error) => error == CodecError::Length && is_range(records_view(records@))
                && !all_encodable(records_view(records@)),
        },
{
    proof {
        reveal(range_bytes);
    }
    if !is_sealable(records) {
        return Err(CodecError::InvalidRange);
    }
    let ghost views = records_view(records@);
    let ghost parts = envelopes(views);
    let mut body: Vec<u8> = Vec::new();
    let mut offsets: Vec<u32> = Vec::with_capacity(records.len() + 1);
    let mut i: usize = 0;
    assert(body@ =~= parts.take(0).flatten());
    while i < records.len()
        invariant
            i <= records@.len(),
            records@.len() == 1000,
            views == records_view(records@),
            is_range(views),
            parts == envelopes(views),
            body@ == parts.take(i as int).flatten(),
            body@.len() <= i * 2_000_004,
            offsets@.len() == i,
            forall|j: int| 0 <= j < i ==> #[trigger] offsets@[j] == range_offset(views, j),
            forall|j: int| 0 <= j < i ==> is_encodable(#[trigger] views[j]),
        decreases records@.len() - i,
    {
        match u32::try_from(body.len()) {
            Ok(offset) => offsets.push(offset),
            Err(_) => return Err(CodecError::Length),
        }
        let ghost before = body@;
        assert(views[i as int] == records@[i as int]@);
        let record = match records[i].encode() {
            Ok(record) => record,
            Err(error) => {
                assert(!is_encodable(views[i as int]));
                return Err(error);
            },
        };
        proof {
            lemma_record_fits(records@[i as int]);
            law_record_length(views[i as int]);
        }
        put_len(&mut body, record.len())?;
        bytes::append(&mut body, record.as_slice());
        proof {
            bytes::lemma_be_bytes_len(record@.len(), 4);
            assert(parts[i as int] == envelope(views[i as int]));
            parts.take(i as int).lemma_flatten_push(parts[i as int]);
            assert(parts.take(i + 1) =~= parts.take(i as int).push(parts[i as int]));
            assert(body@ =~= before + parts[i as int]);
        }
        i = i + 1;
    }
    match u32::try_from(body.len()) {
        Ok(offset) => offsets.push(offset),
        Err(_) => return Err(CodecError::Length),
    }
    assert(parts.take(i as int) =~= parts);
    let mut bytes: Vec<u8> = Vec::new();
    bytes.push(RANGE_FORMAT_VERSION);
    bytes::put_u32(&mut bytes, records[0].height);
    bytes::put_u32(&mut bytes, records[records.len() - 1].height);
    bytes::append(&mut bytes, records[0].previous_hash.as_slice());
    bytes::append(&mut bytes, records[records.len() - 1].hash.as_slice());
    assert(bytes@ =~= range_head(views));
    let ghost table = range_offsets(views);
    let mut k: usize = 0;
    assert(bytes@ =~= range_head(views) + table.take(0).flatten());
    while k < offsets.len()
        invariant
            k <= offsets@.len(),
            offsets@.len() == 1001,
            views.len() == 1000,
            table == range_offsets(views),
            forall|j: int| 0 <= j < 1001 ==> #[trigger] offsets@[j] == range_offset(views, j),
            bytes@ == range_head(views) + table.take(k as int).flatten(),
        decreases offsets@.len() - k,
    {
        let ghost before = bytes@;
        bytes::put_u32(&mut bytes, offsets[k]);
        proof {
            assert(table[k as int] == bytes::be_bytes(offsets@[k as int] as nat, 4));
            table.take(k as int).lemma_flatten_push(table[k as int]);
            assert(table.take(k + 1) =~= table.take(k as int).push(table[k as int]));
            assert(bytes@ =~= range_head(views) + table.take(k + 1).flatten());
        }
        k = k + 1;
    }
    assert(table.take(k as int) =~= table);
    bytes::append(&mut bytes, body.as_slice());
    Ok(bytes)
}

/// Reads record `index` of an encoded range.
pub fn decode_range_record(bytes: &[u8], index: usize) -> (decoded: Result<
    CompactBlockRecord,
    CodecError,
>)
    ensures
        match decoded {
            Ok(record) => read_range_record(bytes@, index as int) == Ok::<RecordView, CodecError>(
                record@,
            ),
            Err(error) => read_range_record(bytes@, index as int) == Err::<RecordView, CodecError>(
                error,
            ),
        },
{
    proof {
        reveal(read_range_record);
    }
    if index >= RANGE_SIZE as usize {
        return Err(CodecError::RangeIndex);
    }
    let mut reader = Reader::new(bytes);
    let version: u8 = reader.u8()?;
    if version != RANGE_FORMAT_VERSION {
        return Err(CodecError::Version { kind: "range", version });
    }
    let start: u32 = reader.u32()?;
    let end: u32 = reader.u32()?;
    let first_previous_hash: [u8; 32] = reader.array()?;
    let terminal_hash: [u8; 32] = reader.array()?;
    if start % RANGE_SIZE != 0 || start.checked_add(RANGE_SIZE - 1) != Some(end) {
        return Err(CodecError::InvalidRange);
    }
    let mut offsets: Vec<usize> = Vec::with_capacity(RANGE_SIZE as usize + 1);
    let mut i: usize = 0;
    while i < RANGE_SIZE as usize + 1
        invariant
            i <= 1001,
            index < 1000,
            reader.wf(),
            reader.bytes == bytes,
            reader.offset == 73 + 4 * i,
            offsets@.len() == i,
            forall|j: int| 0 <= j < i ==> #[trigger] offsets@[j] == range_offset_at(bytes@, j),
            bytes@.len() < range_body_start() ==> read_range_record(bytes@, index as int) == Err::<
                RecordView,
                CodecError,
            >(CodecError::Truncated),
        decreases 1001 - i,
    {
        let offset: usize = reader.len()?;
        offsets.push(offset);
        i = i + 1;
    }
    let remaining: usize = reader.remaining();
    let body = reader.take(remaining)?;
    if offsets[0] != 0 || offsets[RANGE_SIZE as usize] != body.len() {
        return Err(CodecError::Length);
    }
    let mut j: usize = 0;
    while j < RANGE_SIZE as usize
        invariant
            j <= 1000,
            index < 1000,
            offsets@.len() == 1001,
            forall|k: int| 0 <= k < 1001 ==> #[trigger] offsets@[k] == range_offset_at(bytes@, k),
            forall|k: int, l: int|
                0 <= k && l == k + 1 && l <= j ==> #[trigger] range_offset_at(bytes@, k)
                    <= #[trigger] range_offset_at(bytes@, l),
            forall|k: int| 0 <= k <= j ==> range_offset_at(bytes@, k) <= offsets@[j as int],
            !range_offsets_fit(bytes@) ==> read_range_record(bytes@, index as int) == Err::<
                RecordView,
                CodecError,
            >(CodecError::Length),
        decreases 1000 - j,
    {
        if offsets[j] > offsets[j + 1] {
            assert(range_offset_at(bytes@, j as int) > range_offset_at(bytes@, j + 1));
            return Err(CodecError::Length);
        }
        j = j + 1;
    }
    assert(range_offsets_fit(bytes@));
    let from: usize = offsets[index];
    let to: usize = offsets[index + 1];
    proof {
        lemma_offsets_bounded(bytes@, index + 1);
        assert(range_offset_at(bytes@, index as int) <= range_offset_at(bytes@, index + 1));
        assert(body@.subrange(from as int, to as int) =~= bytes@.subrange(
            range_body_start() + from,
            range_body_start() + to,
        ));
    }
    let record = decode_envelope(slice_subrange(body, from, to))?;
    if start.checked_add(index as u32) != Some(record.height) || (index == 0
        && !bytes::same_bytes(
        record.previous_hash.as_slice(),
        first_previous_hash.as_slice(),
    )) || (index + 1 == RANGE_SIZE as usize && !bytes::same_bytes(
        record.hash.as_slice(),
        terminal_hash.as_slice(),
    )) {
        return Err(CodecError::InvalidRange);
    }
    Ok(record)
}

proof fn lemma_offsets_bounded(bytes: Seq<u8>, i: int)
    requires
        range_offsets_fit(bytes),
        0 <= i <= 1000,
    ensures
        range_offset_at(bytes, i) <= range_offset_at(bytes, 1000),
    decreases 1000 - i,
{
    if i < 1000 {
        lemma_offsets_bounded(bytes, i + 1);
    }
}

/// Reads the record in an envelope.
fn decode_envelope(bytes: &[u8]) -> (decoded: Result<CompactBlockRecord, CodecError>)
    ensures
        match decoded {
            Ok(record) => read_envelope(bytes@) == Ok::<RecordView, CodecError>(record@),
            Err(error) => read_envelope(bytes@) == Err::<RecordView, CodecError>(error),
        },
{
    let mut envelope = Reader::new(bytes);
    let record_len: usize = envelope.len()?;
    let record = CompactBlockRecord::decode(envelope.take(record_len)?)?;
    envelope.finish()?;
    Ok(record)
}

/// Heights in a chain count up from the first.
pub proof fn lemma_chain_heights(records: Seq<RecordView>, i: int)
    requires
        is_chain(records),
        0 <= i < records.len(),
    ensures
        records[i].height == records[0].height + i,
    decreases i,
{
    if i > 0 {
        lemma_chain_heights(records, i - 1);
        assert(linked(records[i - 1], records[i]));
    }
}

proof fn lemma_envelope(record: RecordView)
    requires
        record_fits(record),
        is_encodable(record),
    ensures
        envelope(record).len() == 4 + record_len(record.header.len(), record.transactions),
        read_envelope(envelope(record)) == Ok::<RecordView, CodecError>(record),
{
    let body = record_bytes(record);
    let whole = envelope(record);
    law_record_length(record);
    law_decode_undoes_encode(record);
    bytes::lemma_be_bytes_len(body.len(), 4);
    assert(whole.subrange(0, 4) =~= bytes::be_bytes(body.len(), 4));
    lemma_number_within(whole, 0, body.len());
    assert(whole.subrange(4, (4 + body.len()) as int) =~= body);
}

/// Each envelope lies behind those before it.
proof fn lemma_range_offset(records: Seq<RecordView>, i: int)
    requires
        forall|j: int| 0 <= j < records.len() ==> record_fits(#[trigger] records[j]),
        all_encodable(records),
        0 <= i <= records.len(),
    ensures
        range_offset(records, i) <= i * 2_000_004,
        i < records.len() ==> range_offset(records, i + 1) == range_offset(records, i) + envelope(
            records[i],
        ).len(),
        range_offset(records, i) <= envelopes(records).flatten().len(),
        i < records.len() ==> range_offset(records, i + 1) <= envelopes(records).flatten().len()
            && envelopes(records).flatten().subrange(
            range_offset(records, i) as int,
            range_offset(records, i + 1) as int,
        ) == envelope(records[i]),
    decreases i,
{
    let parts = envelopes(records);
    bytes::lemma_flatten_split(parts, i);
    if i > 0 {
        lemma_range_offset(records, i - 1);
        lemma_envelope(records[i - 1]);
    } else {
        assert(parts.take(0) =~= Seq::empty());
    }
    if i < records.len() {
        assert(parts[i] == envelope(records[i]));
        parts.take(i).lemma_flatten_push(parts[i]);
        assert(parts.take(i + 1) =~= parts.take(i).push(parts[i]));
        bytes::lemma_flatten_split(parts, i + 1);
        assert(parts.flatten().subrange(
            range_offset(records, i) as int,
            range_offset(records, i + 1) as int,
        ) =~= parts[i]);
    }
}

/// Every record of an encoded range is read back from it.
pub proof fn law_range_record_undoes_encode(records: Seq<RecordView>, index: int)
    requires
        forall|j: int| 0 <= j < records.len() ==> record_fits(#[trigger] records[j]),
        is_range(records),
        all_encodable(records),
        0 <= index < records.len(),
    ensures
        read_range_record(range_bytes(records), index) == Ok::<RecordView, CodecError>(
            records[index],
        ),
{
    reveal(range_bytes);
    reveal(read_range_record);
    let whole = range_bytes(records);
    let head = range_head(records);
    let table = range_offsets(records);
    let body = envelopes(records).flatten();
    assert(record_fits(records[0]) && record_fits(records[999]));
    bytes::lemma_be_bytes_len(records[0].height as nat, 4);
    bytes::lemma_be_bytes_len(records.last().height as nat, 4);
    assert(head.len() == 73);
    assert forall|i: int| 0 <= i < table.len() implies (#[trigger] table[i]).len() == 4 by {
        bytes::lemma_be_bytes_len(range_offset(records, i), 4);
    }
    bytes::lemma_flatten_fixed_len(table, 4);
    assert(table.flatten().len() == 4004);
    assert(whole.subrange(1, 5) =~= bytes::be_bytes(records[0].height as nat, 4));
    assert(whole.subrange(5, 9) =~= bytes::be_bytes(records.last().height as nat, 4));
    lemma_number_within(whole, 1, records[0].height as nat);
    lemma_number_within(whole, 5, records.last().height as nat);
    assert(whole.subrange(9, 41) =~= records[0].previous_hash);
    assert(whole.subrange(41, 73) =~= records.last().hash);
    lemma_chain_heights(records, 999);
    lemma_chain_heights(records, index);
    assert(whole.subrange(73, 4077) =~= table.flatten());
    assert(whole.subrange(4077, whole.len() as int) =~= body);
    assert forall|i: int| 0 <= i <= 1000 implies #[trigger] range_offset_at(whole, i)
        == range_offset(records, i) by {
        bytes::lemma_flatten_fixed(table, 4, i);
        lemma_within(whole, 73, table.flatten(), 4 * i, 4 * i + 4);
        lemma_range_offset(records, i);
        lemma_number_within(whole, 73 + 4 * i, range_offset(records, i));
    }
    assert forall|i: int, j: int| 0 <= i && j == i + 1 && j <= 1000 implies #[trigger] range_offset_at(
        whole,
        i,
    ) <= #[trigger] range_offset_at(whole, j) by {
        lemma_range_offset(records, i);
    }
    assert(envelopes(records).take(0) =~= Seq::empty());
    assert(envelopes(records).take(1000) =~= envelopes(records));
    assert(range_offsets_fit(whole));
    lemma_range_offset(records, index);
    let from = range_offset(records, index) as int;
    let to = range_offset(records, index + 1) as int;
    lemma_within(whole, 4077, body, from, to);
    lemma_envelope(records[index]);
}

// ---------------------------------------------------------------------------
// Bytes that are cut, longer or altered
// ---------------------------------------------------------------------------

/// Transactions that end behind the first `len` bytes are not read from these.
proof fn lemma_cut_transactions(bytes: Seq<u8>, len: int, at: int, count: nat)
    requires
        0 <= len <= bytes.len() <= MAX_RECORD_BYTES,
        0 <= at,
        read_transactions(bytes, at, count) matches Ok((_, end)) && end > len,
        at <= len,
    ensures
        read_transactions(bytes.take(len), at, count) == Err::<
            (Seq<TransactionView>, int),
            CodecError,
        >(CodecError::Truncated),
    decreases count,
{
    let cut = bytes.take(len);
    if count > 0 && at + 56 <= len {
        assert(cut.subrange(at + 40, at + 44) =~= bytes.subrange(at + 40, at + 44));
        assert(cut.subrange(at + 44, at + 48) =~= bytes.subrange(at + 44, at + 48));
        assert(cut.subrange(at + 48, at + 52) =~= bytes.subrange(at + 48, at + 52));
        assert(cut.subrange(at + 52, at + 56) =~= bytes.subrange(at + 52, at + 56));
        let next = at + 56 + items_len_at(bytes, at);
        if next <= len {
            lemma_cut_transactions(bytes, len, next, (count - 1) as nat);
        }
    }
}

/// Transactions end at the same place whatever lies behind them.
proof fn lemma_longer_transactions(bytes: Seq<u8>, more: Seq<u8>, at: int, count: nat)
    requires
        0 <= at <= bytes.len(),
        read_transactions(bytes, at, count) is Ok,
    ensures
        read_transactions(bytes + more, at, count) is Ok,
        read_transactions(bytes, at, count)->Ok_0.1 <= bytes.len(),
        read_transactions(bytes + more, at, count)->Ok_0.1 == read_transactions(
            bytes,
            at,
            count,
        )->Ok_0.1,
    decreases count,
{
    let whole = bytes + more;
    if count > 0 {
        assert(whole.subrange(at + 40, at + 44) =~= bytes.subrange(at + 40, at + 44));
        assert(whole.subrange(at + 44, at + 48) =~= bytes.subrange(at + 44, at + 48));
        assert(whole.subrange(at + 48, at + 52) =~= bytes.subrange(at + 48, at + 52));
        assert(whole.subrange(at + 52, at + 56) =~= bytes.subrange(at + 52, at + 56));
        let next = at + 56 + items_len_at(bytes, at);
        lemma_longer_transactions(bytes, more, next, (count - 1) as nat);
    }
}

/// An encoded record without its last bytes, one or more, is found truncated.
pub proof fn law_cut_record_is_truncated(bytes: Seq<u8>, len: int)
    requires
        read_record(bytes) is Ok,
        0 <= len < bytes.len(),
    ensures
        read_record(bytes.take(len)) == Err::<RecordView, CodecError>(CodecError::Truncated),
{
    reveal(read_record);
    let cut = bytes.take(len);
    if len >= 93 {
        assert(cut.subrange(85, 89) =~= bytes.subrange(85, 89));
        assert(cut.subrange(89, 93) =~= bytes.subrange(89, 93));
        let start = 93 + number_at(bytes, 85);
        if start <= len {
            lemma_cut_transactions(bytes, len, start as int, number_at(bytes, 89));
        }
    }
}

/// An encoded record with bytes behind it is refused for them, as long as it is not longer than a
/// record may be.
pub proof fn law_longer_record_has_trailing_bytes(bytes: Seq<u8>, more: Seq<u8>)
    requires
        read_record(bytes) is Ok,
        more.len() > 0,
    ensures
        read_record(bytes + more) == Err::<RecordView, CodecError>(
            if bytes.len() + more.len() > MAX_RECORD_BYTES {
                CodecError::Length
            } else {
                CodecError::TrailingBytes
            },
        ),
{
    reveal(read_record);
    let whole = bytes + more;
    assert(whole.subrange(85, 89) =~= bytes.subrange(85, 89));
    assert(whole.subrange(89, 93) =~= bytes.subrange(89, 93));
    let start = 93 + number_at(bytes, 85);
    lemma_longer_transactions(bytes, more, start as int, number_at(bytes, 89));
}

/// An encoded range without its last bytes, one or more, is found truncated where the cut reaches
/// into the head or the offsets; behind them its offsets no longer fit.
pub proof fn law_cut_range_is_refused(bytes: Seq<u8>, len: int, index: int)
    requires
        read_range_record(bytes, index) is Ok,
        0 <= len < bytes.len(),
    ensures
        read_range_record(bytes.take(len), index) == Err::<RecordView, CodecError>(
            if len < range_body_start() {
                CodecError::Truncated
            } else {
                CodecError::Length
            },
        ),
{
    reveal(read_range_record);
    let cut = bytes.take(len);
    if len >= 73 {
        assert(cut.subrange(1, 5) =~= bytes.subrange(1, 5));
        assert(cut.subrange(5, 9) =~= bytes.subrange(5, 9));
    }
    if len >= range_body_start() {
        assert(cut.subrange(4073, 4077) =~= bytes.subrange(4073, 4077));
        assert(range_offset_at(cut, 1000) == range_offset_at(bytes, 1000));
    }
}

/// The offsets of an encoded range with bytes behind it no longer fit.
pub proof fn law_longer_range_is_refused(bytes: Seq<u8>, more: Seq<u8>, index: int)
    requires
        read_range_record(bytes, index) is Ok,
        more.len() > 0,
    ensures
        read_range_record(bytes + more, index) == Err::<RecordView, CodecError>(
            CodecError::Length,
        ),
{
    reveal(read_range_record);
    let whole = bytes + more;
    assert(whole.subrange(1, 5) =~= bytes.subrange(1, 5));
    assert(whole.subrange(5, 9) =~= bytes.subrange(5, 9));
    assert(whole.subrange(4073, 4077) =~= bytes.subrange(4073, 4077));
    assert(range_offset_at(whole, 1000) == range_offset_at(bytes, 1000));
}

/// What reading a range gives when another head stands before its offsets and records: another
/// version is named, other heights never pass, another hash before the range is found at the first
/// record and another hash at its end at the last, and nothing else changes.
pub proof fn law_altered_range_head(bytes: Seq<u8>, head: Seq<u8>, index: int)
    requires
        read_range_record(bytes, index) is Ok,
        0 <= index,
        head.len() == 73,
    ensures
        read_range_record(head + bytes.skip(73), index) == if head[0] != RANGE_FORMAT_VERSION {
            Err::<RecordView, CodecError>(CodecError::Version { kind: "range", version: head[0] })
        } else if head.subrange(1, 9) != bytes.subrange(1, 9) || (index == 0 && head.subrange(9, 41)
            != bytes.subrange(9, 41)) || (index == 999 && head.subrange(41, 73) != bytes.subrange(
            41,
            73,
        )) {
            Err(CodecError::InvalidRange)
        } else {
            read_range_record(bytes, index)
        },
{
    reveal(read_range_record);
    let altered = head + bytes.skip(73);
    assert(altered.subrange(1, 5) =~= head.subrange(1, 9).subrange(0, 4));
    assert(altered.subrange(5, 9) =~= head.subrange(1, 9).subrange(4, 8));
    assert(bytes.subrange(1, 5) =~= bytes.subrange(1, 9).subrange(0, 4));
    assert(bytes.subrange(5, 9) =~= bytes.subrange(1, 9).subrange(4, 8));
    assert(altered.subrange(9, 41) =~= head.subrange(9, 41));
    assert(altered.subrange(41, 73) =~= head.subrange(41, 73));
    lemma_number_written(altered, 1);
    lemma_number_written(altered, 5);
    lemma_number_written(bytes, 1);
    lemma_number_written(bytes, 5);
    if number_at(altered, 1) == number_at(bytes, 1) && number_at(altered, 5) == number_at(
        bytes,
        5,
    ) {
        assert(altered.subrange(1, 9) =~= altered.subrange(1, 5) + altered.subrange(5, 9));
        assert(bytes.subrange(1, 9) =~= bytes.subrange(1, 5) + bytes.subrange(5, 9));
        assert(altered.subrange(1, 9) =~= head.subrange(1, 9));
    }
    assert forall|i: int| 0 <= i <= 1000 implies #[trigger] range_offset_at(altered, i)
        == range_offset_at(bytes, i) by {
        assert(altered.subrange(73 + 4 * i, 73 + 4 * i + 4) =~= bytes.subrange(
            73 + 4 * i,
            73 + 4 * i + 4,
        ));
    }
    assert(range_offsets_fit(altered)) by {
        assert forall|i: int, j: int|
            0 <= i && j == i + 1 && j <= 1000 implies #[trigger] range_offset_at(altered, i)
            <= #[trigger] range_offset_at(altered, j) by {
            assert(range_offset_at(bytes, i) <= range_offset_at(bytes, j));
        }
    }
    lemma_offsets_bounded(bytes, index);
    lemma_offsets_bounded(bytes, index + 1);
    let from = range_body_start() + range_offset_at(bytes, index);
    let to = range_body_start() + range_offset_at(bytes, index + 1);
    assert(range_offset_at(bytes, index) <= range_offset_at(bytes, index + 1));
    assert(altered.subrange(from, to) =~= bytes.subrange(from, to));
}

// ---------------------------------------------------------------------------
// Laws of the format
// ---------------------------------------------------------------------------

/// A record is viewed as it is, field by field, and records in their order.
pub proof fn law_records_are_viewed_as_they_are(records: Seq<CompactBlockRecord>, i: int)
    requires
        0 <= i < records.len(),
    ensures
        records_view(records).len() == records.len(),
        records_view(records)[i].height == records[i].height,
        records_view(records)[i].hash == records[i].hash@,
        records_view(records)[i].previous_hash == records[i].previous_hash@,
        records_view(records)[i].time == records[i].time,
        records_view(records)[i].header == records[i].header@,
        records_view(records)[i].transactions == parser::transactions_view(
            records[i].transactions@,
        ),
        records_view(records)[i].end_tree_sizes.sapling == records[i].end_tree_sizes.sapling,
        records_view(records)[i].end_tree_sizes.orchard == records[i].end_tree_sizes.orchard,
        records_view(records)[i].end_tree_sizes.ironwood == records[i].end_tree_sizes.ironwood,
{
}

/// A chain grows by a block exactly where the block is one height above the last and has its hash
/// as parent. A sealed range is a chain of a thousand blocks from a multiple of a thousand on.
pub proof fn law_chains_are_linked(records: Seq<RecordView>, next: RecordView)
    ensures
        is_chain(Seq::empty()),
        is_chain(records.push(next)) <==> is_chain(records) && (records.len() > 0 ==> next.height
            == records.last().height + 1 && next.previous_hash == records.last().hash),
        is_range(records) <==> records.len() == 1000 && records[0].height % 1000 == 0 && is_chain(
            records,
        ),
{
    let longer = records.push(next);
    if is_chain(longer) {
        assert forall|i: int, j: int| 0 <= i && j == i + 1 && j < records.len() implies linked(
            #[trigger] records[i],
            #[trigger] records[j],
        ) by {
            assert(linked(longer[i], longer[j]));
        }
        if records.len() > 0 {
            assert(linked(longer[records.len() - 1], longer[records.len() as int]));
        }
    }
    if is_chain(records) {
        assert forall|i: int, j: int|
            0 <= i && j == i + 1 && j < longer.len() && (records.len() > 0 ==> next.height
                == records.last().height + 1 && next.previous_hash
                == records.last().hash) implies linked(
            #[trigger] longer[i],
            #[trigger] longer[j],
        ) by {
            if j < records.len() {
                assert(linked(records[i], records[j]));
            }
        }
    }
}

/// A record takes 93 bytes and its header, each transaction 56 more, and each of its spends 32, its
/// outputs 116, and its actions 148. Records of up to two million bytes are encoded.
pub proof fn law_sizes_add_up(
    record: RecordView,
    transactions: Seq<TransactionView>,
    next: TransactionView,
    records: Seq<RecordView>,
)
    ensures
        transactions_len(Seq::<TransactionView>::empty()) == 0,
        transactions_len(transactions.push(next)) == transactions_len(transactions) + 56 + 32
            * next.sapling_spends.len() + 116 * next.sapling_outputs.len() + 148
            * next.orchard_actions.len() + 148 * next.ironwood_actions.len(),
        record_len(record.header.len(), record.transactions) == 93 + record.header.len()
            + transactions_len(record.transactions),
        is_encodable(record) <==> 93 + record.header.len() + transactions_len(record.transactions)
            <= 2_000_000,
        all_encodable(Seq::empty()),
        all_encodable(records.push(record)) <==> all_encodable(records) && is_encodable(record),
{
    assert(transactions.push(next).drop_last() =~= transactions);
    let longer = records.push(record);
    if all_encodable(longer) {
        assert(is_encodable(longer[records.len() as int]));
        assert forall|i: int| 0 <= i < records.len() implies is_encodable(
            #[trigger] records[i],
        ) by {
            assert(is_encodable(longer[i]));
        }
    }
}

/// An encoded record has each fixed field at its place, numbers highest byte first: version,
/// height, hash, hash of the parent, time, the sizes of the Sapling, Orchard and Ironwood trees,
/// and how long the header and how many the transactions are. The header follows.
pub proof fn law_record_is_laid_out_in_order(record: RecordView)
    requires
        record_fits(record),
        is_encodable(record),
    ensures
        ({
            let bytes = record_bytes(record);
            &&& bytes.len() == 93 + record.header.len() + transactions_len(record.transactions)
            &&& bytes[0] == 1
            &&& bytes::be_value(bytes.subrange(1, 5)) == record.height
            &&& bytes.subrange(5, 37) == record.hash
            &&& bytes.subrange(37, 69) == record.previous_hash
            &&& bytes::be_value(bytes.subrange(69, 73)) == record.time
            &&& bytes::be_value(bytes.subrange(73, 77)) == record.end_tree_sizes.sapling
            &&& bytes::be_value(bytes.subrange(77, 81)) == record.end_tree_sizes.orchard
            &&& bytes::be_value(bytes.subrange(81, 85)) == record.end_tree_sizes.ironwood
            &&& bytes::be_value(bytes.subrange(85, 89)) == record.header.len()
            &&& bytes::be_value(bytes.subrange(89, 93)) == record.transactions.len()
            &&& bytes.subrange(93, 93int + record.header.len()) == record.header
        }),
{
    reveal(record_bytes);
    let whole = record_bytes(record);
    let head = record_head(record);
    lemma_record_head(record);
    law_record_length(record);
    lemma_transactions_len_counts(record.transactions);
    assert(whole.subrange(0, 93) =~= head);
    lemma_within(whole, 0, head, 1, 5);
    lemma_within(whole, 0, head, 5, 37);
    lemma_within(whole, 0, head, 37, 69);
    lemma_within(whole, 0, head, 69, 73);
    lemma_within(whole, 0, head, 73, 77);
    lemma_within(whole, 0, head, 77, 81);
    lemma_within(whole, 0, head, 81, 85);
    lemma_within(whole, 0, head, 85, 89);
    lemma_within(whole, 0, head, 89, 93);
    lemma_number_within(whole, 1, record.height as nat);
    lemma_number_within(whole, 69, record.time as nat);
    lemma_number_within(whole, 73, record.end_tree_sizes.sapling as nat);
    lemma_number_within(whole, 77, record.end_tree_sizes.orchard as nat);
    lemma_number_within(whole, 81, record.end_tree_sizes.ironwood as nat);
    lemma_number_within(whole, 85, record.header.len());
    lemma_number_within(whole, 89, record.transactions.len());
    assert(whole.subrange(93, 93int + record.header.len()) =~= record.header);
}

/// Where transaction `i` is written.
proof fn lemma_transaction_place(transactions: Seq<TransactionView>, i: int)
    requires
        forall|j: int|
            0 <= j < transactions.len() ==> transaction_fits(#[trigger] transactions[j]),
        0 <= i < transactions.len(),
    ensures
        ({
            let at = transactions_len(transactions.take(i)) as int;
            let end = at + transaction_len(transactions[i]);
            &&& end <= transactions_bytes(transactions).len()
            &&& transactions_bytes(transactions).subrange(at, end) == transaction_bytes(
                transactions[i],
            )
        }),
    decreases i,
{
    let whole = transactions_bytes(transactions);
    let rest = transactions.drop_first();
    let first = transaction_len(transactions[0]) as int;
    lemma_transactions_bytes_first(transactions);
    lemma_transaction_bytes_len(transactions[0]);
    if i == 0 {
        assert(transactions.take(0) =~= Seq::empty());
        assert(whole.subrange(0, first) =~= transaction_bytes(transactions[0]));
    } else {
        lemma_transaction_place(rest, i - 1);
        lemma_transactions_len_first(transactions.take(i));
        assert(transactions.take(i).drop_first() =~= rest.take(i - 1));
        let at = transactions_len(rest.take(i - 1)) as int;
        let end = at + transaction_len(rest[i - 1]);
        assert(whole.subrange(first + at, first + end) =~= transactions_bytes(rest).subrange(
            at,
            end,
        ));
    }
}

/// Transaction `i` of an encoded record lies behind the header and the transactions before it, and
/// has each field at its place: index, identifier, and how many spends, outputs, Orchard actions
/// and Ironwood actions there are; then these, in this order. Of each kind, item `k` follows the
/// `k` items before it: a nullifier, or a commitment, an ephemeral key and a ciphertext, behind a
/// nullifier in an action.
#[verifier::rlimit(40)]
pub proof fn law_transaction_is_laid_out_in_order(record: RecordView, i: int, k: int)
    requires
        record_fits(record),
        is_encodable(record),
        0 <= i < record.transactions.len(),
        0 <= k,
    ensures
        ({
            let bytes = record_bytes(record);
            let transaction = record.transactions[i];
            let at = 93int + record.header.len() + transactions_len(record.transactions.take(i));
            let outputs = at + 56 + 32 * transaction.sapling_spends.len() + 116 * k;
            let orchard = at + 56 + 32 * transaction.sapling_spends.len() + 116
                * transaction.sapling_outputs.len() + 148 * k;
            let ironwood = orchard + 148 * transaction.orchard_actions.len();
            &&& bytes::be_value(bytes.subrange(at, at + 8)) == transaction.index
            &&& bytes.subrange(at + 8, at + 40) == transaction.txid
            &&& bytes::be_value(bytes.subrange(at + 40, at + 44))
                == transaction.sapling_spends.len()
            &&& bytes::be_value(bytes.subrange(at + 44, at + 48))
                == transaction.sapling_outputs.len()
            &&& bytes::be_value(bytes.subrange(at + 48, at + 52))
                == transaction.orchard_actions.len()
            &&& bytes::be_value(bytes.subrange(at + 52, at + 56))
                == transaction.ironwood_actions.len()
            &&& k < transaction.sapling_spends.len() ==> bytes.subrange(
                at + 56 + 32 * k,
                at + 88 + 32 * k,
            ) == transaction.sapling_spends[k]
            &&& k < transaction.sapling_outputs.len() ==> {
                let output = transaction.sapling_outputs[k];
                &&& bytes.subrange(outputs, outputs + 32) == output.cmu
                &&& bytes.subrange(outputs + 32, outputs + 64) == output.ephemeral_key
                &&& bytes.subrange(outputs + 64, outputs + 116) == output.ciphertext
            }
            &&& k < transaction.orchard_actions.len() ==> {
                let action = transaction.orchard_actions[k];
                &&& bytes.subrange(orchard, orchard + 32) == action.nullifier
                &&& bytes.subrange(orchard + 32, orchard + 64) == action.commitment
                &&& bytes.subrange(orchard + 64, orchard + 96) == action.ephemeral_key
                &&& bytes.subrange(orchard + 96, orchard + 148) == action.ciphertext
            }
            &&& k < transaction.ironwood_actions.len() ==> {
                let action = transaction.ironwood_actions[k];
                &&& bytes.subrange(ironwood, ironwood + 32) == action.nullifier
                &&& bytes.subrange(ironwood + 32, ironwood + 64) == action.commitment
                &&& bytes.subrange(ironwood + 64, ironwood + 96) == action.ephemeral_key
                &&& bytes.subrange(ironwood + 96, ironwood + 148) == action.ciphertext
            }
        }),
{
    reveal(record_bytes);
    let whole = record_bytes(record);
    let transactions = record.transactions;
    let start = 93int + record.header.len();
    let at = start + transactions_len(transactions.take(i));
    let end = at + transaction_len(transactions[i]);
    lemma_record_head(record);
    law_record_length(record);
    lemma_transactions_bytes_len(transactions);
    lemma_transaction_place(transactions, i);
    assert(whole.subrange(start, whole.len() as int) =~= transactions_bytes(transactions));
    lemma_within(whole, start, transactions_bytes(transactions), at - start, end - start);
    lemma_transaction_at(whole, at, transactions[i]);
    lemma_transaction_head_numbers(whole, at, transactions[i]);
}

/// The index and the counts of a transaction where it was written.
proof fn lemma_transaction_head_numbers(bytes: Seq<u8>, at: int, transaction: TransactionView)
    requires
        transaction_fits(transaction),
        transaction_len(transaction) <= u32::MAX,
        0 <= at,
        at + transaction_len(transaction) <= bytes.len(),
        bytes.subrange(at, at + transaction_len(transaction)) == transaction_bytes(transaction),
    ensures
        bytes::be_value(bytes.subrange(at, at + 8)) == transaction.index,
{
    let whole = transaction_bytes(transaction);
    lemma_transaction_bytes_len(transaction);
    bytes::lemma_be_bytes_len(transaction.index as nat, 8);
    bytes::lemma_byte_limits();
    bytes::lemma_be_round_trip(transaction.index as nat, 8);
    assert(whole.subrange(0, 8) =~= bytes::be_bytes(transaction.index as nat, 8));
    lemma_within(bytes, at, whole, 0, 8);
}

/// An encoded range has each field at its place: version, first and last height, the hash before
/// the range and the hash at its end, then where each record begins, and then the records, each
/// behind its length, without a gap.
pub proof fn law_range_is_laid_out_in_order(records: Seq<RecordView>, i: int)
    requires
        forall|j: int| 0 <= j < records.len() ==> record_fits(#[trigger] records[j]),
        is_range(records),
        all_encodable(records),
        0 <= i < 1000,
    ensures
        ({
            let bytes = range_bytes(records);
            let from = bytes::be_value(bytes.subrange(73 + 4 * i, 77 + 4 * i)) as int;
            let to = bytes::be_value(bytes.subrange(77 + 4 * i, 81 + 4 * i)) as int;
            let len = record_bytes(records[i]).len();
            &&& bytes[0] == 1
            &&& bytes::be_value(bytes.subrange(1, 5)) == records[0].height
            &&& bytes::be_value(bytes.subrange(5, 9)) == records[999].height
            &&& bytes.subrange(9, 41) == records[0].previous_hash
            &&& bytes.subrange(41, 73) == records[999].hash
            &&& i == 0 ==> from == 0
            &&& i == 999 ==> 4077 + to == bytes.len()
            &&& to == from + 4 + len
            &&& bytes::be_value(bytes.subrange(4077 + from, 4081 + from)) == len
            &&& bytes.subrange(4081 + from, 4081 + from + len) == record_bytes(records[i])
        }),
{
    reveal(range_bytes);
    let whole = range_bytes(records);
    let head = range_head(records);
    let table = range_offsets(records);
    let body = envelopes(records).flatten();
    assert(record_fits(records[0]) && record_fits(records[999]) && record_fits(records[i]));
    bytes::lemma_be_bytes_len(records[0].height as nat, 4);
    bytes::lemma_be_bytes_len(records.last().height as nat, 4);
    assert(head.len() == 73);
    assert forall|j: int| 0 <= j < table.len() implies (#[trigger] table[j]).len() == 4 by {
        bytes::lemma_be_bytes_len(range_offset(records, j), 4);
    }
    bytes::lemma_flatten_fixed_len(table, 4);
    assert(whole.subrange(1, 5) =~= bytes::be_bytes(records[0].height as nat, 4));
    assert(whole.subrange(5, 9) =~= bytes::be_bytes(records.last().height as nat, 4));
    lemma_number_within(whole, 1, records[0].height as nat);
    lemma_number_within(whole, 5, records.last().height as nat);
    assert(whole.subrange(9, 41) =~= records[0].previous_hash);
    assert(whole.subrange(41, 73) =~= records.last().hash);
    assert(whole.subrange(73, 4077) =~= table.flatten());
    assert(whole.subrange(4077, whole.len() as int) =~= body);
    assert forall|j: int| 0 <= j <= 1000 implies #[trigger] range_offset_at(whole, j)
        == range_offset(records, j) by {
        bytes::lemma_flatten_fixed(table, 4, j);
        lemma_within(whole, 73, table.flatten(), 4 * j, 4 * j + 4);
        lemma_range_offset(records, j);
        lemma_number_within(whole, 73 + 4 * j, range_offset(records, j));
    }
    assert(range_offset_at(whole, i) == range_offset(records, i));
    assert(range_offset_at(whole, i + 1) == range_offset(records, i + 1));
    assert(envelopes(records).take(0) =~= Seq::empty());
    assert(envelopes(records).take(1000) =~= envelopes(records));
    lemma_range_offset(records, i);
    lemma_envelope(records[i]);
    let from = range_offset(records, i) as int;
    let to = range_offset(records, i + 1) as int;
    let part = envelope(records[i]);
    let len = record_bytes(records[i]).len();
    law_record_length(records[i]);
    bytes::lemma_be_bytes_len(len, 4);
    lemma_within(whole, 4077, body, from, to);
    lemma_within(whole, 4077 + from, part, 0, 4);
    lemma_within(whole, 4077 + from, part, 4, 4int + len);
    assert(part.subrange(0, 4) =~= bytes::be_bytes(len, 4));
    assert(part.subrange(4, 4int + len) =~= record_bytes(records[i]));
    lemma_number_within(whole, 4077 + from, len);
}

/// What the first bytes of a record are refused for: too many of them, none, another version, fewer
/// than the fixed fields, or a header or transactions that cannot fit; the first of these is told.
pub proof fn law_wrong_records_are_refused(bytes: Seq<u8>)
    ensures
        ({
            let header_len = bytes::be_value(bytes.subrange(85, 89));
            let count = bytes::be_value(bytes.subrange(89, 93));
            let read = read_record(bytes);
            &&& bytes.len() > 2_000_000 ==> read == Err::<RecordView, CodecError>(
                CodecError::Length,
            )
            &&& bytes.len() == 0 ==> read == Err::<RecordView, CodecError>(CodecError::Truncated)
            &&& 0 < bytes.len() <= 2_000_000 && bytes[0] != 1 ==> read == Err::<
                RecordView,
                CodecError,
            >(CodecError::Version { kind: "block", version: bytes[0] })
            &&& 0 < bytes.len() < 93 && bytes[0] == 1 ==> read == Err::<RecordView, CodecError>(
                CodecError::Truncated,
            )
            &&& 93 <= bytes.len() <= 2_000_000 && bytes[0] == 1 && 93 + header_len > bytes.len()
                ==> read == Err::<RecordView, CodecError>(
                if 93 + header_len > usize::MAX {
                    CodecError::Length
                } else {
                    CodecError::Truncated
                },
            )
            &&& 93 <= bytes.len() <= 2_000_000 && bytes[0] == 1 && 93 + header_len <= bytes.len()
                && 93 + header_len + 56 * count > bytes.len() ==> read == Err::<
                RecordView,
                CodecError,
            >(
                if 56 * count > usize::MAX {
                    CodecError::Length
                } else {
                    CodecError::Truncated
                },
            )
        }),
{
    reveal(read_record);
}

/// What the head of a range is refused for: an index outside it, no bytes, another version, too few
/// bytes, heights that are no range, or offsets that do not fit; the first of these is told. A
/// record that is read has the height of its index, and the first and the last the head's hashes.
pub proof fn law_wrong_ranges_are_refused(bytes: Seq<u8>, index: int)
    requires
        0 <= index,
    ensures
        ({
            let start = bytes::be_value(bytes.subrange(1, 5));
            let end = bytes::be_value(bytes.subrange(5, 9));
            let read = read_range_record(bytes, index);
            let aligned = start % 1000 == 0 && start + 999 == end;
            let known = index < 1000 && bytes.len() > 0 && bytes[0] == 1;
            &&& index >= 1000 ==> read == Err::<RecordView, CodecError>(CodecError::RangeIndex)
            &&& index < 1000 && bytes.len() == 0 ==> read == Err::<RecordView, CodecError>(
                CodecError::Truncated,
            )
            &&& index < 1000 && bytes.len() > 0 && bytes[0] != 1 ==> read == Err::<
                RecordView,
                CodecError,
            >(CodecError::Version { kind: "range", version: bytes[0] })
            &&& known && bytes.len() < 73 ==> read == Err::<RecordView, CodecError>(
                CodecError::Truncated,
            )
            &&& known && bytes.len() >= 73 && !aligned ==> read == Err::<RecordView, CodecError>(
                CodecError::InvalidRange,
            )
            &&& known && 73 <= bytes.len() < 4077 && aligned ==> read == Err::<
                RecordView,
                CodecError,
            >(CodecError::Truncated)
            &&& known && bytes.len() >= 4077 && aligned && (bytes::be_value(bytes.subrange(73, 77))
                != 0 || bytes::be_value(bytes.subrange(4073, 4077)) != bytes.len() - 4077)
                ==> read == Err::<RecordView, CodecError>(CodecError::Length)
            &&& read matches Ok(record) ==> {
                &&& known && aligned
                &&& record.height == start + index
                &&& index == 0 ==> record.previous_hash == bytes.subrange(9, 41)
                &&& index == 999 ==> record.hash == bytes.subrange(41, 73)
            }
        }),
{
    reveal(read_range_record);
}

/// Offsets of a range that go back are refused.
pub proof fn law_offsets_must_not_go_back(bytes: Seq<u8>, index: int, i: int)
    requires
        read_range_record(bytes, index) is Ok,
        0 <= i < 1000,
    ensures
        bytes::be_value(bytes.subrange(73 + 4 * i, 77 + 4 * i)) <= bytes::be_value(
            bytes.subrange(77 + 4 * i, 81 + 4 * i),
        ),
{
    reveal(read_range_record);
    assert(range_offset_at(bytes, i) <= range_offset_at(bytes, i + 1));
}

} // verus!
