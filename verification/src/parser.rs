//! Compact data of a block, read out of the block's raw bytes.
use vstd::prelude::*;
use vstd::slice::slice_subrange;
use vstd::string::StringExecFns;

use crate::bytes;
use crate::text;

verus! {

pub const MAX_TRANSACTION_BYTES: usize = 2_000_000;

pub const MAX_VECTOR_ITEMS: usize = 65_535;

pub const COMPACT_CIPHERTEXT_BYTES: usize = 52;

pub const OVERWINTER_GROUP_ID: u32 = 0x03c4_8270;

pub const SAPLING_GROUP_ID: u32 = 0x892f_2085;

pub const V5_GROUP_ID: u32 = 0x26a7_270a;

pub const V6_GROUP_ID: u32 = 0xd884_b698;

pub const SAPLING_V4_SPEND_BYTES: usize = 384;

pub const SAPLING_SPEND_PREFIX_BYTES: usize = 96;

pub const SAPLING_OUTPUT_PREFIX_BYTES: usize = 756;

pub const SAPLING_V4_OUTPUT_BYTES: usize = 948;

pub const ORCHARD_ACTION_BYTES: usize = 820;

pub const BCTV14_JOINSPLIT_BYTES: usize = 1_802;

pub const GROTH16_JOINSPLIT_BYTES: usize = 1_698;

/// The part of a Sapling output that a light client needs.
#[derive(Clone, Copy, Debug, PartialEq, Eq)]
pub struct CompactSaplingOutput {
    pub cmu: [u8; 32],
    pub ephemeral_key: [u8; 32],
    pub ciphertext: [u8; 52],
}

/// The part of an Orchard or Ironwood action that a light client needs.
#[derive(Clone, Copy, Debug, PartialEq, Eq)]
pub struct CompactShieldedAction {
    pub nullifier: [u8; 32],
    pub commitment: [u8; 32],
    pub ephemeral_key: [u8; 32],
    pub ciphertext: [u8; 52],
}

/// The shielded data of one transaction.
#[derive(Clone, Debug, PartialEq, Eq)]
pub struct CompactTransaction {
    pub index: u64,
    pub txid: [u8; 32],
    pub sapling_spends: Vec<[u8; 32]>,
    pub sapling_outputs: Vec<CompactSaplingOutput>,
    pub orchard_actions: Vec<CompactShieldedAction>,
    pub ironwood_actions: Vec<CompactShieldedAction>,
}

/// A [`CompactSaplingOutput`] as byte sequences.
#[verifier::ext_equal]
pub struct OutputView {
    pub cmu: Seq<u8>,
    pub ephemeral_key: Seq<u8>,
    pub ciphertext: Seq<u8>,
}

/// A [`CompactShieldedAction`] as byte sequences.
#[verifier::ext_equal]
pub struct ActionView {
    pub nullifier: Seq<u8>,
    pub commitment: Seq<u8>,
    pub ephemeral_key: Seq<u8>,
    pub ciphertext: Seq<u8>,
}

/// A [`CompactTransaction`] as sequences.
#[verifier::ext_equal]
pub struct TransactionView {
    pub index: u64,
    pub txid: Seq<u8>,
    pub sapling_spends: Seq<Seq<u8>>,
    pub sapling_outputs: Seq<OutputView>,
    pub orchard_actions: Seq<ActionView>,
    pub ironwood_actions: Seq<ActionView>,
}

impl View for CompactSaplingOutput {
    type V = OutputView;

    open spec fn view(&self) -> OutputView {
        OutputView {
            cmu: self.cmu@,
            ephemeral_key: self.ephemeral_key@,
            ciphertext: self.ciphertext@,
        }
    }
}

impl View for CompactShieldedAction {
    type V = ActionView;

    open spec fn view(&self) -> ActionView {
        ActionView {
            nullifier: self.nullifier@,
            commitment: self.commitment@,
            ephemeral_key: self.ephemeral_key@,
            ciphertext: self.ciphertext@,
        }
    }
}

pub open spec fn hashes_view(hashes: Seq<[u8; 32]>) -> Seq<Seq<u8>> {
    Seq::new(hashes.len(), |i: int| hashes[i]@)
}

pub open spec fn outputs_view(outputs: Seq<CompactSaplingOutput>) -> Seq<OutputView> {
    Seq::new(outputs.len(), |i: int| outputs[i]@)
}

pub open spec fn actions_view(actions: Seq<CompactShieldedAction>) -> Seq<ActionView> {
    Seq::new(actions.len(), |i: int| actions[i]@)
}

pub open spec fn transactions_view(transactions: Seq<CompactTransaction>) -> Seq<TransactionView> {
    Seq::new(transactions.len(), |i: int| transactions[i]@)
}

impl View for CompactTransaction {
    type V = TransactionView;

    open spec fn view(&self) -> TransactionView {
        TransactionView {
            index: self.index,
            txid: self.txid@,
            sapling_spends: hashes_view(self.sapling_spends@),
            sapling_outputs: outputs_view(self.sapling_outputs@),
            orchard_actions: actions_view(self.orchard_actions@),
            ironwood_actions: actions_view(self.ironwood_actions@),
        }
    }
}

impl CompactTransaction {
    /// Whether the transaction has any shielded data.
    pub fn has_payload(&self) -> (has: bool)
        ensures
            has == has_payload(self@),
    {
        self.sapling_spends.len() != 0 || self.sapling_outputs.len() != 0
            || self.orchard_actions.len() != 0 || self.ironwood_actions.len() != 0
    }
}

pub open spec fn has_payload(transaction: TransactionView) -> bool {
    transaction.sapling_spends.len() > 0 || transaction.sapling_outputs.len() > 0
        || transaction.orchard_actions.len() > 0 || transaction.ironwood_actions.len() > 0
}

/// A transaction as a block holds it.
#[derive(Clone, Debug, PartialEq, Eq)]
pub struct RawIndexTransaction {
    pub txid: [u8; 32],
    pub bytes: Vec<u8>,
}

/// A block as the chain holds it.
#[derive(Clone, Debug, PartialEq, Eq)]
pub struct RawIndexBlock {
    pub height: u32,
    pub hash: [u8; 32],
    pub header: Vec<u8>,
    pub transactions: Vec<RawIndexTransaction>,
}

/// The compact data of one block, without its place in the note commitment trees.
#[derive(Clone, Debug, PartialEq, Eq)]
pub struct PreparedCompactBlock {
    pub height: u32,
    pub hash: [u8; 32],
    pub previous_hash: [u8; 32],
    pub time: u32,
    pub header: Vec<u8>,
    pub transactions: Vec<CompactTransaction>,
    pub sapling_additions: u32,
    pub orchard_additions: u32,
    pub ironwood_additions: u32,
}

/// A [`PreparedCompactBlock`] as sequences.
#[verifier::ext_equal]
pub struct PreparedView {
    pub height: u32,
    pub hash: Seq<u8>,
    pub previous_hash: Seq<u8>,
    pub time: u32,
    pub header: Seq<u8>,
    pub transactions: Seq<TransactionView>,
    pub sapling_additions: u32,
    pub orchard_additions: u32,
    pub ironwood_additions: u32,
}

impl View for PreparedCompactBlock {
    type V = PreparedView;

    open spec fn view(&self) -> PreparedView {
        PreparedView {
            height: self.height,
            hash: self.hash@,
            previous_hash: self.previous_hash@,
            time: self.time,
            header: self.header@,
            transactions: transactions_view(self.transactions@),
            sapling_additions: self.sapling_additions,
            orchard_additions: self.orchard_additions,
            ironwood_additions: self.ironwood_additions,
        }
    }
}

/// Why a block has no compact data.
#[derive(Clone, Copy, Debug, PartialEq, Eq)]
pub enum CompactParseError {
    TruncatedHeader { height: u32 },
    Transaction { height: u32, index: usize, source: TransactionParseError },
    CommitmentCount { height: u32 },
}

/// Why bytes are not a transaction, and where.
#[derive(Clone, Copy, Debug, PartialEq, Eq)]
pub enum TransactionParseError {
    TooLarge,
    Truncated { offset: usize },
    NonCanonicalCompactSize { offset: usize },
    LengthLimit { offset: usize },
    UnsupportedHeader { header: u32 },
    VersionGroup { actual: u32, expected: u32 },
    TrailingBytes { offset: usize },
}

impl TransactionParseError {
    /// The error in words.
    pub open spec fn words(self) -> Seq<char> {
        match self {
            TransactionParseError::TooLarge => "transaction is larger than "@ + text::decimal(
                MAX_TRANSACTION_BYTES as nat,
            ) + " bytes"@,
            TransactionParseError::Truncated { offset } => "truncated transaction at byte "@
                + text::decimal(offset as nat),
            TransactionParseError::NonCanonicalCompactSize { offset } =>
                "non-canonical CompactSize at byte "@ + text::decimal(offset as nat),
            TransactionParseError::LengthLimit { offset } => "count or length at byte "@
                + text::decimal(offset as nat) + " exceeds its bound"@,
            TransactionParseError::UnsupportedHeader { header } =>
                "unsupported transaction header "@ + text::word(header),
            TransactionParseError::VersionGroup { actual, expected } => "wrong version group ID "@
                + text::word(actual) + ", expected "@ + text::word(expected),
            TransactionParseError::TrailingBytes { offset } => "trailing bytes at byte "@
                + text::decimal(offset as nat),
        }
    }

    /// The error in words.
    pub fn message(&self) -> (message: String)
        ensures
            message@ == self.words(),
    {
        match self {
            TransactionParseError::TooLarge => text::text_with_number(
                "transaction is larger than ",
                MAX_TRANSACTION_BYTES as u64,
                " bytes",
            ),
            TransactionParseError::Truncated { offset } => String::from_str(
                "truncated transaction at byte ",
            ).concat(text::number_text(*offset as u64).as_str()),
            TransactionParseError::NonCanonicalCompactSize { offset } => String::from_str(
                "non-canonical CompactSize at byte ",
            ).concat(text::number_text(*offset as u64).as_str()),
            TransactionParseError::LengthLimit { offset } => text::text_with_number(
                "count or length at byte ",
                *offset as u64,
                " exceeds its bound",
            ),
            TransactionParseError::UnsupportedHeader { header } => String::from_str(
                "unsupported transaction header ",
            ).concat(text::word_text(*header).as_str()),
            TransactionParseError::VersionGroup { actual, expected } => String::from_str(
                "wrong version group ID ",
            ).concat(text::word_text(*actual).as_str()).concat(", expected ").concat(
                text::word_text(*expected).as_str(),
            ),
            TransactionParseError::TrailingBytes { offset } => String::from_str(
                "trailing bytes at byte ",
            ).concat(text::number_text(*offset as u64).as_str()),
        }
    }
}

impl CompactParseError {
    /// The error in words.
    pub open spec fn words(self) -> Seq<char> {
        match self {
            CompactParseError::TruncatedHeader { height } => "block "@ + text::decimal(
                height as nat,
            ) + " has a truncated header"@,
            CompactParseError::Transaction { height, index, source } => "block "@ + text::decimal(
                height as nat,
            ) + " transaction "@ + text::decimal(index as nat) + ": "@ + source.words(),
            CompactParseError::CommitmentCount { height } => "block "@ + text::decimal(
                height as nat,
            ) + " commitment count exceeds u32"@,
        }
    }

    /// The error in words.
    pub fn message(&self) -> (message: String)
        ensures
            message@ == self.words(),
    {
        match self {
            CompactParseError::TruncatedHeader { height } => text::text_with_number(
                "block ",
                *height as u64,
                " has a truncated header",
            ),
            CompactParseError::Transaction { height, index, source } => text::text_with_number(
                "block ",
                *height as u64,
                " transaction ",
            ).concat(text::number_text(*index as u64).as_str()).concat(": ").concat(
                source.message().as_str(),
            ),
            CompactParseError::CommitmentCount { height } => text::text_with_number(
                "block ",
                *height as u64,
                " commitment count exceeds u32",
            ),
        }
    }
}

// ---------------------------------------------------------------------------
// The grammar. A step starts where the step before it ended, or fails with it.
// ---------------------------------------------------------------------------

pub type Step = Result<int, TransactionParseError>;

/// Steps over `len` bytes.
pub open spec fn skip(bytes: Seq<u8>, from: Step, len: nat) -> Step {
    match from {
        Err(error) => Err(error),
        Ok(at) => if at + len > usize::MAX {
            Err(TransactionParseError::LengthLimit { offset: at as usize })
        } else if at + len > bytes.len() {
            Err(TransactionParseError::Truncated { offset: at as usize })
        } else {
            Ok(at + len)
        },
    }
}

/// How many bytes a CompactSize has behind its first byte.
pub open spec fn compact_size_width(first: u8) -> nat {
    if first == 253 {
        2
    } else if first == 254 {
        4
    } else if first == 255 {
        8
    } else {
        0
    }
}

/// The least number that is written with `width` bytes behind the first byte.
pub open spec fn compact_size_least(width: nat) -> nat {
    if width == 2 {
        253
    } else if width == 4 {
        0x1_0000
    } else if width == 8 {
        0x1_0000_0000
    } else {
        0
    }
}

/// Reads a CompactSize of at most `max`: the number, and where it ends.
pub open spec fn compact_size(bytes: Seq<u8>, from: Step, max: nat) -> Result<
    (nat, int),
    TransactionParseError,
> {
    match from {
        Err(error) => Err(error),
        Ok(at) => {
            let width = compact_size_width(bytes[at]);
            let value = if width == 0 {
                bytes[at] as nat
            } else {
                bytes::le_value(bytes.subrange(at + 1, at + 1 + width))
            };
            if at >= bytes.len() {
                Err(TransactionParseError::Truncated { offset: at as usize })
            } else if at + 1 + width > bytes.len() {
                Err(TransactionParseError::Truncated { offset: (at + 1) as usize })
            } else if value < compact_size_least(width) {
                Err(TransactionParseError::NonCanonicalCompactSize { offset: at as usize })
            } else if value > max {
                Err(TransactionParseError::LengthLimit { offset: at as usize })
            } else {
                Ok((value, at + 1 + width))
            }
        },
    }
}

/// Reads the number of items in a vector.
pub open spec fn item_count(bytes: Seq<u8>, from: Step) -> Result<(nat, int), TransactionParseError> {
    compact_size(bytes, from, MAX_VECTOR_ITEMS as nat)
}

/// Steps over a byte string behind its length.
pub open spec fn skip_string(bytes: Seq<u8>, from: Step) -> Step {
    match compact_size(bytes, from, MAX_TRANSACTION_BYTES as nat) {
        Err(error) => Err(error),
        Ok((len, at)) => skip(bytes, Ok(at), len),
    }
}

/// Previous output, script and sequence number.
pub open spec fn skip_input(bytes: Seq<u8>, from: Step) -> Step {
    skip(bytes, skip_string(bytes, skip(bytes, from, 36)), 4)
}

/// Value and script.
pub open spec fn skip_output(bytes: Seq<u8>, from: Step) -> Step {
    skip_string(bytes, skip(bytes, from, 8))
}

pub open spec fn skip_inputs(bytes: Seq<u8>, from: Step, count: nat) -> Step
    decreases count,
{
    if count == 0 {
        from
    } else {
        skip_inputs(bytes, skip_input(bytes, from), (count - 1) as nat)
    }
}

pub open spec fn skip_outputs(bytes: Seq<u8>, from: Step, count: nat) -> Step
    decreases count,
{
    if count == 0 {
        from
    } else {
        skip_outputs(bytes, skip_output(bytes, from), (count - 1) as nat)
    }
}

/// Transparent inputs and outputs.
pub open spec fn skip_transparent(bytes: Seq<u8>, from: Step) -> Step {
    match item_count(bytes, from) {
        Err(error) => Err(error),
        Ok((inputs, at)) => match item_count(bytes, skip_inputs(bytes, Ok(at), inputs)) {
            Err(error) => Err(error),
            Ok((outputs, at)) => skip_outputs(bytes, Ok(at), outputs),
        },
    }
}

/// JoinSplits of `size` bytes each, and the key and signature behind them where there are any.
pub open spec fn skip_joinsplits(bytes: Seq<u8>, from: Step, size: nat) -> Step {
    match item_count(bytes, from) {
        Err(error) => Err(error),
        Ok((count, at)) => {
            let items_end = skip(bytes, Ok(at), count * size);
            if count > 0 {
                skip(bytes, items_end, 96)
            } else {
                items_end
            }
        },
    }
}

/// The version group of a transaction.
pub open spec fn skip_group(bytes: Seq<u8>, from: Step, expected: u32) -> Step {
    match skip(bytes, from, 4) {
        Err(error) => Err(error),
        Ok(end) => {
            let actual = bytes::le_value(bytes.subrange(end - 4, end)) as u32;
            if actual != expected {
                Err(TransactionParseError::VersionGroup { actual, expected })
            } else {
                Ok(end)
            }
        },
    }
}

/// The Sapling part of a transaction.
#[verifier::ext_equal]
pub struct SaplingPart {
    pub spends: Seq<Seq<u8>>,
    pub outputs: Seq<OutputView>,
    pub end: int,
}

/// Nullifiers, each `skipped` bytes into an item of `size` bytes.
pub open spec fn nullifiers_at(
    bytes: Seq<u8>,
    at: int,
    count: nat,
    size: nat,
    skipped: nat,
) -> Seq<Seq<u8>> {
    Seq::new(
        count,
        |i: int| bytes.subrange(at + i * size + skipped, at + i * size + skipped + 32),
    )
}

/// The Sapling output at `at`: value commitment, note commitment, key, ciphertexts.
pub open spec fn sapling_output_at(bytes: Seq<u8>, at: int) -> OutputView {
    OutputView {
        cmu: bytes.subrange(at + 32, at + 64),
        ephemeral_key: bytes.subrange(at + 64, at + 96),
        ciphertext: bytes.subrange(at + 96, at + 148),
    }
}

pub open spec fn sapling_outputs_at(bytes: Seq<u8>, at: int, count: nat, size: nat) -> Seq<
    OutputView,
> {
    Seq::new(count, |i: int| sapling_output_at(bytes, at + i * size))
}

/// Sapling spends and outputs, each with its proof, with the JoinSplits behind them.
pub open spec fn sapling_v4(bytes: Seq<u8>, from: Step) -> Result<
    SaplingPart,
    TransactionParseError,
> {
    match item_count(bytes, from) {
        Err(error) => Err(error),
        Ok((spends, spends_at)) => match item_count(
            bytes,
            skip(bytes, Ok(spends_at), spends * 384),
        ) {
            Err(error) => Err(error),
            Ok((outputs, outputs_at)) => {
                let joinsplits_end = skip_joinsplits(
                    bytes,
                    skip(bytes, Ok(outputs_at), outputs * 948),
                    GROTH16_JOINSPLIT_BYTES as nat,
                );
                match if spends > 0 || outputs > 0 {
                    skip(bytes, joinsplits_end, 64)
                } else {
                    joinsplits_end
                } {
                    Err(error) => Err(error),
                    Ok(end) => Ok(
                        SaplingPart {
                            spends: nullifiers_at(bytes, spends_at, spends, 384, 64),
                            outputs: sapling_outputs_at(bytes, outputs_at, outputs, 948),
                            end,
                        },
                    ),
                }
            },
        },
    }
}

/// What lies behind Sapling outputs where there are spends or outputs: balance, anchor, proofs and
/// signatures.
pub open spec fn skip_sapling_proofs(bytes: Seq<u8>, from: Step, spends: nat, outputs: nat) -> Step {
    let anchor = skip(bytes, from, 8);
    let proofs = if spends > 0 {
        skip(bytes, anchor, 32)
    } else {
        anchor
    };
    skip(bytes, skip(bytes, skip(bytes, proofs, spends * 256), outputs * 192), 64)
}

/// Sapling spends and outputs, with all proofs behind them.
pub open spec fn sapling_v5(bytes: Seq<u8>, from: Step) -> Result<
    SaplingPart,
    TransactionParseError,
> {
    match item_count(bytes, from) {
        Err(error) => Err(error),
        Ok((spends, spends_at)) => match item_count(
            bytes,
            skip(bytes, Ok(spends_at), spends * 96),
        ) {
            Err(error) => Err(error),
            Ok((outputs, outputs_at)) => {
                let outputs_end = skip(bytes, Ok(outputs_at), outputs * 756);
                match if spends > 0 || outputs > 0 {
                    skip_sapling_proofs(bytes, outputs_end, spends, outputs)
                } else {
                    outputs_end
                } {
                    Err(error) => Err(error),
                    Ok(end) => Ok(
                        SaplingPart {
                            spends: nullifiers_at(bytes, spends_at, spends, 96, 32),
                            outputs: sapling_outputs_at(bytes, outputs_at, outputs, 756),
                            end,
                        },
                    ),
                }
            },
        },
    }
}

/// The action at `at`: value commitment, nullifier, key, note commitment, key, ciphertexts.
pub open spec fn shielded_action_at(bytes: Seq<u8>, at: int) -> ActionView {
    ActionView {
        nullifier: bytes.subrange(at + 32, at + 64),
        commitment: bytes.subrange(at + 96, at + 128),
        ephemeral_key: bytes.subrange(at + 128, at + 160),
        ciphertext: bytes.subrange(at + 160, at + 212),
    }
}

pub open spec fn shielded_actions_at(bytes: Seq<u8>, at: int, count: nat) -> Seq<ActionView> {
    Seq::new(count, |i: int| shielded_action_at(bytes, at + i * 820))
}

/// What lies behind actions where there are any: flags, balance, anchor, proof and signatures.
pub open spec fn skip_action_proofs(bytes: Seq<u8>, from: Step, count: nat) -> Step {
    skip(bytes, skip(bytes, skip_string(bytes, skip(bytes, from, 41)), count * 64), 64)
}

/// Orchard or Ironwood actions, and where they end.
pub open spec fn shielded_actions(bytes: Seq<u8>, from: Step) -> Result<
    (Seq<ActionView>, int),
    TransactionParseError,
> {
    match item_count(bytes, from) {
        Err(error) => Err(error),
        Ok((count, at)) => {
            let actions_end = skip(bytes, Ok(at), count * 820);
            match if count > 0 {
                skip_action_proofs(bytes, actions_end, count)
            } else {
                actions_end
            } {
                Err(error) => Err(error),
                Ok(end) => Ok((shielded_actions_at(bytes, at, count), end)),
            }
        },
    }
}

/// The shielded data of a transaction, and where the transaction ends.
#[verifier::ext_equal]
pub struct ShieldedPart {
    pub sapling_spends: Seq<Seq<u8>>,
    pub sapling_outputs: Seq<OutputView>,
    pub orchard_actions: Seq<ActionView>,
    pub ironwood_actions: Seq<ActionView>,
    pub end: int,
}

pub open spec fn transparent_only(end: Step) -> Result<ShieldedPart, TransactionParseError> {
    match end {
        Err(error) => Err(error),
        Ok(end) => Ok(
            ShieldedPart {
                sapling_spends: Seq::empty(),
                sapling_outputs: Seq::empty(),
                orchard_actions: Seq::empty(),
                ironwood_actions: Seq::empty(),
                end,
            },
        ),
    }
}

#[verifier::opaque]
pub open spec fn body_v4(bytes: Seq<u8>, from: Step) -> Result<ShieldedPart, TransactionParseError> {
    let lock_times_end = skip(
        bytes,
        skip_transparent(bytes, skip_group(bytes, from, SAPLING_GROUP_ID)),
        16,
    );
    match sapling_v4(bytes, lock_times_end) {
        Err(error) => Err(error),
        Ok(sapling) => Ok(
            ShieldedPart {
                sapling_spends: sapling.spends,
                sapling_outputs: sapling.outputs,
                orchard_actions: Seq::empty(),
                ironwood_actions: Seq::empty(),
                end: sapling.end,
            },
        ),
    }
}

/// Everything up to the Sapling part of a transaction of version 5 or 6.
pub open spec fn skip_v5_prefix(bytes: Seq<u8>, from: Step, group: u32) -> Step {
    skip_transparent(bytes, skip(bytes, skip_group(bytes, from, group), 12))
}

#[verifier::opaque]
pub open spec fn body_v5(bytes: Seq<u8>, from: Step) -> Result<ShieldedPart, TransactionParseError> {
    match sapling_v5(bytes, skip_v5_prefix(bytes, from, V5_GROUP_ID)) {
        Err(error) => Err(error),
        Ok(sapling) => match shielded_actions(bytes, Ok(sapling.end)) {
            Err(error) => Err(error),
            Ok((orchard_actions, end)) => Ok(
                ShieldedPart {
                    sapling_spends: sapling.spends,
                    sapling_outputs: sapling.outputs,
                    orchard_actions,
                    ironwood_actions: Seq::empty(),
                    end,
                },
            ),
        },
    }
}

#[verifier::opaque]
pub open spec fn body_v6(bytes: Seq<u8>, from: Step) -> Result<ShieldedPart, TransactionParseError> {
    match sapling_v5(bytes, skip_v5_prefix(bytes, from, V6_GROUP_ID)) {
        Err(error) => Err(error),
        Ok(sapling) => match shielded_actions(bytes, Ok(sapling.end)) {
            Err(error) => Err(error),
            Ok((orchard_actions, orchard_end)) => match shielded_actions(bytes, Ok(orchard_end)) {
                Err(error) => Err(error),
                Ok((ironwood_actions, end)) => Ok(
                    ShieldedPart {
                        sapling_spends: sapling.spends,
                        sapling_outputs: sapling.outputs,
                        orchard_actions,
                        ironwood_actions,
                        end,
                    },
                ),
            },
        },
    }
}

/// What follows the header of a transaction, by the header's version and Overwinter flag.
#[verifier::opaque]
pub open spec fn transaction_body(bytes: Seq<u8>, header: u32) -> Result<
    ShieldedPart,
    TransactionParseError,
> {
    let bctv14 = BCTV14_JOINSPLIT_BYTES as nat;
    if header == 1 {
        transparent_only(skip(bytes, skip_transparent(bytes, Ok(4)), 4))
    } else if header == 2 {
        transparent_only(
            skip_joinsplits(bytes, skip(bytes, skip_transparent(bytes, Ok(4)), 4), bctv14),
        )
    } else if header == 0x8000_0003 {
        transparent_only(
            skip_joinsplits(
                bytes,
                skip(
                    bytes,
                    skip_transparent(bytes, skip_group(bytes, Ok(4), OVERWINTER_GROUP_ID)),
                    8,
                ),
                bctv14,
            ),
        )
    } else if header == 0x8000_0004 {
        body_v4(bytes, Ok(4))
    } else if header == 0x8000_0005 {
        body_v5(bytes, Ok(4))
    } else if header == 0x8000_0006 {
        body_v6(bytes, Ok(4))
    } else {
        Err(TransactionParseError::UnsupportedHeader { header })
    }
}

/// The compact data of a transaction, or what is wrong with its bytes.
#[verifier::opaque]
pub open spec fn read_transaction(bytes: Seq<u8>, txid: Seq<u8>, index: u64) -> Result<
    TransactionView,
    TransactionParseError,
> {
    let header = bytes::le_value(bytes.subrange(0, 4)) as u32;
    if bytes.len() > MAX_TRANSACTION_BYTES {
        Err(TransactionParseError::TooLarge)
    } else if bytes.len() < 4 {
        Err(TransactionParseError::Truncated { offset: 0 })
    } else {
        match transaction_body(bytes, header) {
            Err(error) => Err(error),
            Ok(part) => if part.end < bytes.len() {
                Err(TransactionParseError::TrailingBytes { offset: part.end as usize })
            } else {
                Ok(
                    TransactionView {
                        index,
                        txid,
                        sapling_spends: part.sapling_spends,
                        sapling_outputs: part.sapling_outputs,
                        orchard_actions: part.orchard_actions,
                        ironwood_actions: part.ironwood_actions,
                    },
                )
            },
        }
    }
}

// ---------------------------------------------------------------------------
// Reader
// ---------------------------------------------------------------------------

struct Reader<'a> {
    bytes: &'a [u8],
    offset: usize,
}

impl<'a> Reader<'a> {
    spec fn wf(self) -> bool {
        self.offset <= self.bytes@.len() <= MAX_TRANSACTION_BYTES
    }

    /// `result` and the reader's place are what the grammar says of a step.
    spec fn stepped(self, before: Self, result: Result<(), TransactionParseError>, step: Step) -> bool {
        &&& self.wf()
        &&& self.bytes == before.bytes
        &&& match result {
            Ok(()) => step == Ok::<int, TransactionParseError>(self.offset as int),
            Err(error) => step == Err::<int, TransactionParseError>(error),
        }
    }

    /// `result` and the reader's place are what the grammar says of a number.
    spec fn counted(
        self,
        before: Self,
        result: Result<usize, TransactionParseError>,
        count: Result<(nat, int), TransactionParseError>,
    ) -> bool {
        &&& self.wf()
        &&& self.bytes == before.bytes
        &&& match result {
            Ok(value) => count == Ok::<(nat, int), TransactionParseError>(
                (value as nat, self.offset as int),
            ),
            Err(error) => count == Err::<(nat, int), TransactionParseError>(error),
        }
    }

    spec fn at(self) -> Step {
        Ok(self.offset as int)
    }

    fn new(bytes: &'a [u8]) -> (reader: Self)
        requires
            bytes@.len() <= MAX_TRANSACTION_BYTES,
        ensures
            reader.wf(),
            reader.bytes == bytes,
            reader.offset == 0,
    {
        Reader { bytes, offset: 0 }
    }

    fn take(&mut self, len: usize) -> (taken: Result<&'a [u8], TransactionParseError>)
        requires
            old(self).wf(),
        ensures
            final(self).wf(),
            final(self).bytes == old(self).bytes,
            match taken {
                Ok(value) => skip(old(self).bytes@, old(self).at(), len as nat) == final(self).at()
                    && value@ == old(self).bytes@.subrange(
                    old(self).offset as int,
                    old(self).offset + len,
                ),
                Err(error) => *final(self) == *old(self) && skip(
                    old(self).bytes@,
                    old(self).at(),
                    len as nat,
                ) == Err::<int, TransactionParseError>(error),
            },
    {
        match self.offset.checked_add(len) {
            None => Err(TransactionParseError::LengthLimit { offset: self.offset }),
            Some(end) => if end > self.bytes.len() {
                Err(TransactionParseError::Truncated { offset: self.offset })
            } else {
                let value = slice_subrange(self.bytes, self.offset, end);
                self.offset = end;
                Ok(value)
            },
        }
    }

    fn skip(&mut self, len: usize) -> (skipped: Result<(), TransactionParseError>)
        requires
            old(self).wf(),
        ensures
            final(self).stepped(
                *old(self),
                skipped,
                skip(old(self).bytes@, old(self).at(), len as nat),
            ),
    {
        let _taken = self.take(len)?;
        Ok(())
    }

    fn u32(&mut self) -> (taken: Result<u32, TransactionParseError>)
        requires
            old(self).wf(),
        ensures
            final(self).wf(),
            final(self).bytes == old(self).bytes,
            match taken {
                Ok(value) => skip(old(self).bytes@, old(self).at(), 4) == final(self).at() && value
                    == bytes::le_value(
                    old(self).bytes@.subrange(old(self).offset as int, old(self).offset + 4),
                ),
                Err(error) => skip(old(self).bytes@, old(self).at(), 4) == Err::<
                    int,
                    TransactionParseError,
                >(error),
            },
    {
        let taken = self.take(4)?;
        assert(taken@.subrange(0, 4) =~= taken@);
        Ok(bytes::get_u32_le(taken, 0))
    }

    fn compact_size(&mut self, max: usize) -> (taken: Result<usize, TransactionParseError>)
        requires
            old(self).wf(),
        ensures
            final(self).counted(
                *old(self),
                taken,
                compact_size(old(self).bytes@, old(self).at(), max as nat),
            ),
    {
        let start: usize = self.offset;
        let first: u8 = self.take(1)?[0];
        let value: u64 = if first < 253 {
            first as u64
        } else if first == 253 {
            let taken = self.take(2)?;
            assert(taken@.subrange(0, 2) =~= taken@);
            let value: u16 = bytes::get_u16_le(taken, 0);
            if value < 253 {
                return Err(TransactionParseError::NonCanonicalCompactSize { offset: start });
            }
            value as u64
        } else if first == 254 {
            let value: u32 = self.u32()?;
            if value <= 0xffff {
                return Err(TransactionParseError::NonCanonicalCompactSize { offset: start });
            }
            value as u64
        } else {
            let taken = self.take(8)?;
            assert(taken@.subrange(0, 8) =~= taken@);
            let value: u64 = bytes::get_u64_le(taken, 0);
            if value <= 0xffff_ffff {
                return Err(TransactionParseError::NonCanonicalCompactSize { offset: start });
            }
            value
        };
        if value > max as u64 {
            return Err(TransactionParseError::LengthLimit { offset: start });
        }
        Ok(value as usize)
    }

    fn count(&mut self) -> (taken: Result<usize, TransactionParseError>)
        requires
            old(self).wf(),
        ensures
            final(self).counted(*old(self), taken, item_count(old(self).bytes@, old(self).at())),
            taken matches Ok(count) ==> count <= MAX_VECTOR_ITEMS,
    {
        self.compact_size(MAX_VECTOR_ITEMS)
    }

    fn skip_items(&mut self, count: usize, size: usize) -> (skipped: Result<
        (),
        TransactionParseError,
    >)
        requires
            old(self).wf(),
        ensures
            final(self).stepped(
                *old(self),
                skipped,
                skip(old(self).bytes@, old(self).at(), (count * size) as nat),
            ),
    {
        match count.checked_mul(size) {
            None => Err(TransactionParseError::LengthLimit { offset: self.offset }),
            Some(bytes) => self.skip(bytes),
        }
    }

    /// Checks that `count` items of `size` bytes lie ahead.
    fn ensure_items(&self, count: usize, size: usize) -> (ensured: Result<
        (),
        TransactionParseError,
    >)
        requires
            self.wf(),
            count <= MAX_VECTOR_ITEMS,
            size <= 1_802,
        ensures
            match ensured {
                Ok(()) => skip(self.bytes@, self.at(), (count * size) as nat) == Ok::<
                    int,
                    TransactionParseError,
                >(self.offset + count * size) && self.offset + count * size <= self.bytes@.len(),
                Err(error) => skip(self.bytes@, self.at(), (count * size) as nat) == Err::<
                    int,
                    TransactionParseError,
                >(error),
            },
    {
        assert(count * size <= 65_535 * 1_802) by (nonlinear_arith)
            requires
                count <= 65_535,
                size <= 1_802,
        ;
        match count.checked_mul(size) {
            None => Err(TransactionParseError::LengthLimit { offset: self.offset }),
            Some(bytes) => if bytes > self.bytes.len() - self.offset {
                Err(TransactionParseError::Truncated { offset: self.offset })
            } else {
                Ok(())
            },
        }
    }

    fn version_group(&mut self, expected: u32) -> (skipped: Result<(), TransactionParseError>)
        requires
            old(self).wf(),
        ensures
            final(self).stepped(
                *old(self),
                skipped,
                skip_group(old(self).bytes@, old(self).at(), expected),
            ),
    {
        let actual: u32 = self.u32()?;
        if actual != expected {
            return Err(TransactionParseError::VersionGroup { actual, expected });
        }
        Ok(())
    }

    /// Steps over a byte string behind its length.
    fn skip_string(&mut self) -> (skipped: Result<(), TransactionParseError>)
        requires
            old(self).wf(),
        ensures
            final(self).stepped(
                *old(self),
                skipped,
                skip_string(old(self).bytes@, old(self).at()),
            ),
    {
        let len: usize = self.compact_size(MAX_TRANSACTION_BYTES)?;
        self.skip(len)
    }

    fn skip_input(&mut self) -> (skipped: Result<(), TransactionParseError>)
        requires
            old(self).wf(),
        ensures
            final(self).stepped(*old(self), skipped, skip_input(old(self).bytes@, old(self).at())),
    {
        self.skip(36)?;
        self.skip_string()?;
        self.skip(4)
    }

    fn skip_output(&mut self) -> (skipped: Result<(), TransactionParseError>)
        requires
            old(self).wf(),
        ensures
            final(self).stepped(
                *old(self),
                skipped,
                skip_output(old(self).bytes@, old(self).at()),
            ),
    {
        self.skip(8)?;
        self.skip_string()
    }

    fn skip_inputs(&mut self, count: usize) -> (skipped: Result<(), TransactionParseError>)
        requires
            old(self).wf(),
        ensures
            final(self).stepped(
                *old(self),
                skipped,
                skip_inputs(old(self).bytes@, old(self).at(), count as nat),
            ),
    {
        let ghost whole = skip_inputs(self.bytes@, self.at(), count as nat);
        let mut i: usize = 0;
        while i < count
            invariant
                i <= count,
                self.wf(),
                self.bytes == old(self).bytes,
                whole == skip_inputs(self.bytes@, self.at(), (count - i) as nat),
                whole == skip_inputs(old(self).bytes@, old(self).at(), count as nat),
            decreases count - i,
        {
            match self.skip_input() {
                Ok(()) => {},
                Err(error) => {
                    proof {
                        lemma_skip_inputs_fails(self.bytes@, error, (count - i - 1) as nat);
                    }
                    return Err(error);
                },
            }
            i = i + 1;
        }
        Ok(())
    }

    fn skip_outputs(&mut self, count: usize) -> (skipped: Result<(), TransactionParseError>)
        requires
            old(self).wf(),
        ensures
            final(self).stepped(
                *old(self),
                skipped,
                skip_outputs(old(self).bytes@, old(self).at(), count as nat),
            ),
    {
        let ghost whole = skip_outputs(self.bytes@, self.at(), count as nat);
        let mut i: usize = 0;
        while i < count
            invariant
                i <= count,
                self.wf(),
                self.bytes == old(self).bytes,
                whole == skip_outputs(self.bytes@, self.at(), (count - i) as nat),
                whole == skip_outputs(old(self).bytes@, old(self).at(), count as nat),
            decreases count - i,
        {
            match self.skip_output() {
                Ok(()) => {},
                Err(error) => {
                    proof {
                        lemma_skip_outputs_fails(self.bytes@, error, (count - i - 1) as nat);
                    }
                    return Err(error);
                },
            }
            i = i + 1;
        }
        Ok(())
    }

    fn transparent_bundle(&mut self) -> (skipped: Result<(), TransactionParseError>)
        requires
            old(self).wf(),
        ensures
            final(self).stepped(
                *old(self),
                skipped,
                skip_transparent(old(self).bytes@, old(self).at()),
            ),
    {
        let inputs: usize = self.count()?;
        self.skip_inputs(inputs)?;
        let outputs: usize = self.count()?;
        self.skip_outputs(outputs)
    }

    fn joinsplits(&mut self, item_size: usize) -> (skipped: Result<(), TransactionParseError>)
        requires
            old(self).wf(),
        ensures
            final(self).stepped(
                *old(self),
                skipped,
                skip_joinsplits(old(self).bytes@, old(self).at(), item_size as nat),
            ),
    {
        let count: usize = self.count()?;
        self.skip_items(count, item_size)?;
        if count > 0 {
            self.skip(96)?;
        }
        Ok(())
    }
}

proof fn lemma_skip_inputs_fails(bytes: Seq<u8>, error: TransactionParseError, count: nat)
    ensures
        skip_inputs(bytes, Err(error), count) == Err::<int, TransactionParseError>(error),
    decreases count,
{
    if count > 0 {
        lemma_skip_inputs_fails(bytes, error, (count - 1) as nat);
    }
}

proof fn lemma_skip_outputs_fails(bytes: Seq<u8>, error: TransactionParseError, count: nat)
    ensures
        skip_outputs(bytes, Err(error), count) == Err::<int, TransactionParseError>(error),
    decreases count,
{
    if count > 0 {
        lemma_skip_outputs_fails(bytes, error, (count - 1) as nat);
    }
}

impl<'a> Reader<'a> {
    /// Reads the nullifiers of `count` items that lie ahead.
    fn nullifiers(&mut self, count: usize, size: usize, skipped: usize) -> (nullifiers: Vec<
        [u8; 32],
    >)
        requires
            old(self).wf(),
            old(self).offset + count * size <= old(self).bytes@.len(),
            skipped + 32 <= size,
        ensures
            final(self).wf(),
            final(self).bytes == old(self).bytes,
            final(self).offset == old(self).offset + count * size,
            hashes_view(nullifiers@) == nullifiers_at(
                old(self).bytes@,
                old(self).offset as int,
                count as nat,
                size as nat,
                skipped as nat,
            ),
    {
        let mut nullifiers: Vec<[u8; 32]> = Vec::with_capacity(count);
        let mut i: usize = 0;
        assert(0 * size == 0) by (nonlinear_arith);
        while i < count
            invariant
                i <= count,
                nullifiers@.len() == i,
                skipped + 32 <= size,
                old(self).offset + count * size <= old(self).bytes@.len(),
                self.wf(),
                self.bytes == old(self).bytes,
                self.offset == old(self).offset + i * size,
                forall|j: int|
                    0 <= j < i ==> (#[trigger] nullifiers@[j])@ == old(self).bytes@.subrange(
                        old(self).offset + j * size + skipped,
                        old(self).offset + j * size + skipped + 32,
                    ),
            decreases count - i,
        {
            assert((i + 1) * size == i * size + size && (i + 1) * size <= count * size)
                by (nonlinear_arith)
                requires
                    i < count,
                    size >= 0,
            ;
            nullifiers.push(bytes::get_array(self.bytes, self.offset + skipped));
            self.offset = self.offset + size;
            i = i + 1;
        }
        assert(hashes_view(nullifiers@) =~= nullifiers_at(
            old(self).bytes@,
            old(self).offset as int,
            count as nat,
            size as nat,
            skipped as nat,
        ));
        nullifiers
    }

    /// Reads `count` Sapling outputs of `size` bytes that lie ahead.
    fn sapling_outputs(&mut self, count: usize, size: usize) -> (outputs: Vec<CompactSaplingOutput>)
        requires
            old(self).wf(),
            old(self).offset + count * size <= old(self).bytes@.len(),
            148 <= size,
        ensures
            final(self).wf(),
            final(self).bytes == old(self).bytes,
            final(self).offset == old(self).offset + count * size,
            outputs_view(outputs@) == sapling_outputs_at(
                old(self).bytes@,
                old(self).offset as int,
                count as nat,
                size as nat,
            ),
    {
        let mut outputs: Vec<CompactSaplingOutput> = Vec::with_capacity(count);
        let mut i: usize = 0;
        assert(0 * size == 0) by (nonlinear_arith);
        while i < count
            invariant
                i <= count,
                outputs@.len() == i,
                148 <= size,
                old(self).offset + count * size <= old(self).bytes@.len(),
                self.wf(),
                self.bytes == old(self).bytes,
                self.offset == old(self).offset + i * size,
                forall|j: int|
                    0 <= j < i ==> (#[trigger] outputs@[j])@ == sapling_output_at(
                        old(self).bytes@,
                        old(self).offset + j * size,
                    ),
            decreases count - i,
        {
            assert((i + 1) * size == i * size + size && (i + 1) * size <= count * size)
                by (nonlinear_arith)
                requires
                    i < count,
                    size >= 0,
            ;
            outputs.push(
                CompactSaplingOutput {
                    cmu: bytes::get_array(self.bytes, self.offset + 32),
                    ephemeral_key: bytes::get_array(self.bytes, self.offset + 64),
                    ciphertext: bytes::get_array(self.bytes, self.offset + 96),
                },
            );
            self.offset = self.offset + size;
            i = i + 1;
        }
        assert(outputs_view(outputs@) =~= sapling_outputs_at(
            old(self).bytes@,
            old(self).offset as int,
            count as nat,
            size as nat,
        ));
        outputs
    }

    /// Reads the Sapling part of a transaction of version 4.
    fn sapling_v4(&mut self) -> (taken: Result<
        (Vec<[u8; 32]>, Vec<CompactSaplingOutput>),
        TransactionParseError,
    >)
        requires
            old(self).wf(),
        ensures
            final(self).wf(),
            final(self).bytes == old(self).bytes,
            match taken {
                Ok((spends, outputs)) => sapling_v4(old(self).bytes@, old(self).at()) == Ok::<
                    SaplingPart,
                    TransactionParseError,
                >(
                    (SaplingPart {
                        spends: hashes_view(spends@),
                        outputs: outputs_view(outputs@),
                        end: final(self).offset as int,
                    }),
                ),
                Err(error) => sapling_v4(old(self).bytes@, old(self).at()) == Err::<
                    SaplingPart,
                    TransactionParseError,
                >(error),
            },
    {
        let spends: usize = self.count()?;
        self.ensure_items(spends, SAPLING_V4_SPEND_BYTES)?;
        let sapling_spends = self.nullifiers(spends, SAPLING_V4_SPEND_BYTES, 64);
        let outputs: usize = self.count()?;
        self.ensure_items(outputs, SAPLING_V4_OUTPUT_BYTES)?;
        let sapling_outputs = self.sapling_outputs(outputs, SAPLING_V4_OUTPUT_BYTES);
        self.joinsplits(GROTH16_JOINSPLIT_BYTES)?;
        if spends > 0 || outputs > 0 {
            self.skip(64)?;
        }
        Ok((sapling_spends, sapling_outputs))
    }

    /// Reads the Sapling part of a transaction of version 5 or 6.
    fn sapling_v5(&mut self) -> (taken: Result<
        (Vec<[u8; 32]>, Vec<CompactSaplingOutput>),
        TransactionParseError,
    >)
        requires
            old(self).wf(),
        ensures
            final(self).wf(),
            final(self).bytes == old(self).bytes,
            match taken {
                Ok((spends, outputs)) => sapling_v5(old(self).bytes@, old(self).at()) == Ok::<
                    SaplingPart,
                    TransactionParseError,
                >(
                    (SaplingPart {
                        spends: hashes_view(spends@),
                        outputs: outputs_view(outputs@),
                        end: final(self).offset as int,
                    }),
                ),
                Err(error) => sapling_v5(old(self).bytes@, old(self).at()) == Err::<
                    SaplingPart,
                    TransactionParseError,
                >(error),
            },
    {
        let spends: usize = self.count()?;
        self.ensure_items(spends, SAPLING_SPEND_PREFIX_BYTES)?;
        let sapling_spends = self.nullifiers(spends, SAPLING_SPEND_PREFIX_BYTES, 32);
        let outputs: usize = self.count()?;
        self.ensure_items(outputs, SAPLING_OUTPUT_PREFIX_BYTES)?;
        let sapling_outputs = self.sapling_outputs(outputs, SAPLING_OUTPUT_PREFIX_BYTES);
        if spends > 0 || outputs > 0 {
            self.skip(8)?;
            if spends > 0 {
                self.skip(32)?;
            }
            self.skip_items(spends, 192 + 64)?;
            self.skip_items(outputs, 192)?;
            self.skip(64)?;
        }
        Ok((sapling_spends, sapling_outputs))
    }

    /// Reads Orchard or Ironwood actions.
    fn actions(&mut self) -> (taken: Result<Vec<CompactShieldedAction>, TransactionParseError>)
        requires
            old(self).wf(),
        ensures
            final(self).wf(),
            final(self).bytes == old(self).bytes,
            match taken {
                Ok(actions) => shielded_actions(old(self).bytes@, old(self).at()) == Ok::<
                    (Seq<ActionView>, int),
                    TransactionParseError,
                >((actions_view(actions@), final(self).offset as int)),
                Err(error) => shielded_actions(old(self).bytes@, old(self).at()) == Err::<
                    (Seq<ActionView>, int),
                    TransactionParseError,
                >(error),
            },
    {
        let count: usize = self.count()?;
        self.ensure_items(count, ORCHARD_ACTION_BYTES)?;
        let ghost start = self.offset as int;
        let mut actions: Vec<CompactShieldedAction> = Vec::with_capacity(count);
        let mut i: usize = 0;
        while i < count
            invariant
                i <= count,
                actions@.len() == i,
                start + count * 820 <= old(self).bytes@.len(),
                self.wf(),
                self.bytes == old(self).bytes,
                self.offset == start + i * 820,
                forall|j: int|
                    0 <= j < i ==> (#[trigger] actions@[j])@ == shielded_action_at(
                        old(self).bytes@,
                        start + j * 820,
                    ),
            decreases count - i,
        {
            actions.push(
                CompactShieldedAction {
                    nullifier: bytes::get_array(self.bytes, self.offset + 32),
                    commitment: bytes::get_array(self.bytes, self.offset + 96),
                    ephemeral_key: bytes::get_array(self.bytes, self.offset + 128),
                    ciphertext: bytes::get_array(self.bytes, self.offset + 160),
                },
            );
            self.offset = self.offset + ORCHARD_ACTION_BYTES;
            i = i + 1;
        }
        assert(actions_view(actions@) =~= shielded_actions_at(
            old(self).bytes@,
            start,
            count as nat,
        ));
        if count > 0 {
            self.skip(1 + 8 + 32)?;
            self.skip_string()?;
            self.skip_items(count, 64)?;
            self.skip(64)?;
        }
        Ok(actions)
    }

    fn finish(self) -> (finished: Result<(), TransactionParseError>)
        requires
            self.wf(),
        ensures
            match finished {
                Ok(()) => self.offset == self.bytes@.len(),
                Err(error) => self.offset < self.bytes@.len() && error
                    == (TransactionParseError::TrailingBytes { offset: self.offset }),
            },
    {
        if self.offset == self.bytes.len() {
            Ok(())
        } else {
            Err(TransactionParseError::TrailingBytes { offset: self.offset })
        }
    }
}

/// The shielded data of a transaction.
struct ShieldedItems {
    sapling_spends: Vec<[u8; 32]>,
    sapling_outputs: Vec<CompactSaplingOutput>,
    orchard_actions: Vec<CompactShieldedAction>,
    ironwood_actions: Vec<CompactShieldedAction>,
}

impl ShieldedItems {
    spec fn part(self, end: usize) -> ShieldedPart {
        ShieldedPart {
            sapling_spends: hashes_view(self.sapling_spends@),
            sapling_outputs: outputs_view(self.sapling_outputs@),
            orchard_actions: actions_view(self.orchard_actions@),
            ironwood_actions: actions_view(self.ironwood_actions@),
            end: end as int,
        }
    }

    fn none() -> (items: Self)
        ensures
            forall|end: usize|
                transparent_only(Ok(end as int)) == Ok::<ShieldedPart, TransactionParseError>(
                    #[trigger] items.part(end),
                ),
            hashes_view(items.sapling_spends@) == Seq::<Seq<u8>>::empty(),
            outputs_view(items.sapling_outputs@) == Seq::<OutputView>::empty(),
            actions_view(items.orchard_actions@) == Seq::<ActionView>::empty(),
            actions_view(items.ironwood_actions@) == Seq::<ActionView>::empty(),
    {
        let items = ShieldedItems {
            sapling_spends: Vec::new(),
            sapling_outputs: Vec::new(),
            orchard_actions: Vec::new(),
            ironwood_actions: Vec::new(),
        };
        assert(hashes_view(items.sapling_spends@) =~= Seq::empty());
        assert(outputs_view(items.sapling_outputs@) =~= Seq::empty());
        assert(actions_view(items.orchard_actions@) =~= Seq::empty());
        assert(actions_view(items.ironwood_actions@) =~= Seq::empty());
        items
    }
}

impl<'a> Reader<'a> {
    /// `result` and the reader's place are what the grammar says of shielded data.
    spec fn shielded(
        self,
        before: Self,
        result: Result<ShieldedItems, TransactionParseError>,
        part: Result<ShieldedPart, TransactionParseError>,
    ) -> bool {
        &&& self.wf()
        &&& self.bytes == before.bytes
        &&& match result {
            Ok(items) => part == Ok::<ShieldedPart, TransactionParseError>(
                items.part(self.offset),
            ),
            Err(error) => part == Err::<ShieldedPart, TransactionParseError>(error),
        }
    }

    fn body_v1(&mut self) -> (taken: Result<ShieldedItems, TransactionParseError>)
        requires
            old(self).wf(),
            old(self).offset == 4,
        ensures
            final(self).shielded(*old(self), taken, transaction_body(old(self).bytes@, 1)),
    {
        proof {
            reveal(transaction_body);
        }
        self.transparent_bundle()?;
        self.skip(4)?;
        Ok(ShieldedItems::none())
    }

    fn body_v2(&mut self) -> (taken: Result<ShieldedItems, TransactionParseError>)
        requires
            old(self).wf(),
            old(self).offset == 4,
        ensures
            final(self).shielded(*old(self), taken, transaction_body(old(self).bytes@, 2)),
    {
        proof {
            reveal(transaction_body);
        }
        self.transparent_bundle()?;
        self.skip(4)?;
        self.joinsplits(BCTV14_JOINSPLIT_BYTES)?;
        Ok(ShieldedItems::none())
    }

    fn body_v3(&mut self) -> (taken: Result<ShieldedItems, TransactionParseError>)
        requires
            old(self).wf(),
            old(self).offset == 4,
        ensures
            final(self).shielded(
                *old(self),
                taken,
                transaction_body(old(self).bytes@, 0x8000_0003),
            ),
    {
        proof {
            reveal(transaction_body);
        }
        self.version_group(OVERWINTER_GROUP_ID)?;
        self.transparent_bundle()?;
        self.skip(8)?;
        self.joinsplits(BCTV14_JOINSPLIT_BYTES)?;
        Ok(ShieldedItems::none())
    }

    fn body_v4(&mut self) -> (taken: Result<ShieldedItems, TransactionParseError>)
        requires
            old(self).wf(),
        ensures
            final(self).shielded(*old(self), taken, body_v4(old(self).bytes@, old(self).at())),
    {
        proof {
            reveal(body_v4);
        }
        self.version_group(SAPLING_GROUP_ID)?;
        self.transparent_bundle()?;
        self.skip(16)?;
        let (sapling_spends, sapling_outputs) = self.sapling_v4()?;
        let mut items = ShieldedItems::none();
        items.sapling_spends = sapling_spends;
        items.sapling_outputs = sapling_outputs;
        Ok(items)
    }

    fn body_v5(&mut self) -> (taken: Result<ShieldedItems, TransactionParseError>)
        requires
            old(self).wf(),
        ensures
            final(self).shielded(*old(self), taken, body_v5(old(self).bytes@, old(self).at())),
    {
        proof {
            reveal(body_v5);
        }
        self.version_group(V5_GROUP_ID)?;
        self.skip(12)?;
        self.transparent_bundle()?;
        let (sapling_spends, sapling_outputs) = self.sapling_v5()?;
        let orchard_actions = self.actions()?;
        let mut items = ShieldedItems::none();
        items.sapling_spends = sapling_spends;
        items.sapling_outputs = sapling_outputs;
        items.orchard_actions = orchard_actions;
        Ok(items)
    }

    fn body_v6(&mut self) -> (taken: Result<ShieldedItems, TransactionParseError>)
        requires
            old(self).wf(),
        ensures
            final(self).shielded(*old(self), taken, body_v6(old(self).bytes@, old(self).at())),
    {
        proof {
            reveal(body_v6);
        }
        self.version_group(V6_GROUP_ID)?;
        self.skip(12)?;
        self.transparent_bundle()?;
        let (sapling_spends, sapling_outputs) = self.sapling_v5()?;
        let orchard_actions = self.actions()?;
        let ironwood_actions = self.actions()?;
        Ok(ShieldedItems { sapling_spends, sapling_outputs, orchard_actions, ironwood_actions })
    }
}

impl<'a> Reader<'a> {
    /// Reads what follows the header.
    fn body(&mut self, header: u32) -> (taken: Result<ShieldedItems, TransactionParseError>)
        requires
            old(self).wf(),
            old(self).offset == 4,
        ensures
            final(self).shielded(*old(self), taken, transaction_body(old(self).bytes@, header)),
    {
        proof {
            lemma_body_versions(self.bytes@, header);
        }
        let version: u32 = header % 0x8000_0000;
        let overwintered: bool = header >= 0x8000_0000;
        match (version, overwintered) {
            (1, false) => self.body_v1(),
            (2, false) => self.body_v2(),
            (3, true) => self.body_v3(),
            (4, true) => self.body_v4(),
            (5, true) => self.body_v5(),
            (6, true) => self.body_v6(),
            _ => Err(TransactionParseError::UnsupportedHeader { header }),
        }
    }
}

pub proof fn lemma_body_versions(bytes: Seq<u8>, header: u32)
    ensures
        header == 0x8000_0004 ==> transaction_body(bytes, header) == body_v4(bytes, Ok(4)),
        header == 0x8000_0005 ==> transaction_body(bytes, header) == body_v5(bytes, Ok(4)),
        header == 0x8000_0006 ==> transaction_body(bytes, header) == body_v6(bytes, Ok(4)),
        header != 1 && header != 2 && !(0x8000_0003 <= header <= 0x8000_0006) ==> transaction_body(
            bytes,
            header,
        ) == Err::<ShieldedPart, TransactionParseError>(
            TransactionParseError::UnsupportedHeader { header },
        ),
{
    reveal(transaction_body);
}

/// Reads the compact data of a transaction out of its bytes.
///
/// The laws of [`crate::encoding`] say what is read of the serialization of a whole transaction.
pub fn parse_transaction(transaction: &RawIndexTransaction, index: u64) -> (parsed: Result<
    CompactTransaction,
    TransactionParseError,
>)
    ensures
        match parsed {
            Ok(compact) => read_transaction(transaction.bytes@, transaction.txid@, index) == Ok::<
                TransactionView,
                TransactionParseError,
            >(compact@),
            Err(error) => read_transaction(transaction.bytes@, transaction.txid@, index) == Err::<
                TransactionView,
                TransactionParseError,
            >(error),
        },
{
    proof {
        reveal(read_transaction);
    }
    if transaction.bytes.len() > MAX_TRANSACTION_BYTES {
        return Err(TransactionParseError::TooLarge);
    }
    let mut reader = Reader::new(transaction.bytes.as_slice());
    let header: u32 = reader.u32()?;
    let items = reader.body(header)?;
    reader.finish()?;
    Ok(
        CompactTransaction {
            index,
            txid: transaction.txid,
            sapling_spends: items.sapling_spends,
            sapling_outputs: items.sapling_outputs,
            orchard_actions: items.orchard_actions,
            ironwood_actions: items.ironwood_actions,
        },
    )
}

// ---------------------------------------------------------------------------
// Blocks
// ---------------------------------------------------------------------------

/// What has been read of a block's transactions: those with shielded data, and how many note
/// commitments there are in each pool.
#[verifier::ext_equal]
pub struct Tally {
    pub transactions: Seq<TransactionView>,
    pub sapling: nat,
    pub orchard: nat,
    pub ironwood: nat,
}

/// Adds transaction `index` of the block at `height`.
pub open spec fn tally_transaction(
    height: u32,
    before: Result<Tally, CompactParseError>,
    index: int,
    transaction: RawIndexTransaction,
) -> Result<Tally, CompactParseError> {
    match before {
        Err(error) => Err(error),
        Ok(tally) => match read_transaction(
            transaction.bytes@,
            transaction.txid@,
            index as u64,
        ) {
            Err(source) => Err(
                CompactParseError::Transaction { height, index: index as usize, source },
            ),
            Ok(compact) => {
                let sapling = tally.sapling + compact.sapling_outputs.len();
                let orchard = tally.orchard + compact.orchard_actions.len();
                let ironwood = tally.ironwood + compact.ironwood_actions.len();
                if sapling > usize::MAX || orchard > usize::MAX || ironwood > usize::MAX {
                    Err(CompactParseError::CommitmentCount { height })
                } else {
                    Ok(
                        Tally {
                            transactions: if has_payload(compact) {
                                tally.transactions.push(compact)
                            } else {
                                tally.transactions
                            },
                            sapling,
                            orchard,
                            ironwood,
                        },
                    )
                }
            },
        },
    }
}

/// The first `count` transactions of the block at `height`.
pub open spec fn tally_transactions(
    height: u32,
    transactions: Seq<RawIndexTransaction>,
    count: nat,
) -> Result<Tally, CompactParseError>
    decreases count,
{
    if count == 0 {
        Ok(Tally { transactions: Seq::empty(), sapling: 0, orchard: 0, ironwood: 0 })
    } else {
        tally_transaction(
            height,
            tally_transactions(height, transactions, (count - 1) as nat),
            count - 1,
            transactions[count - 1],
        )
    }
}

/// The compact data of a block, or what is wrong with it.
pub open spec fn read_block(block: RawIndexBlock) -> Result<PreparedView, CompactParseError> {
    let height = block.height;
    let header = block.header@;
    if header.len() < 104 {
        Err(CompactParseError::TruncatedHeader { height })
    } else {
        match tally_transactions(height, block.transactions@, block.transactions@.len()) {
            Err(error) => Err(error),
            Ok(tally) => if tally.sapling > u32::MAX || tally.orchard > u32::MAX || tally.ironwood
                > u32::MAX {
                Err(CompactParseError::CommitmentCount { height })
            } else {
                Ok(
                    PreparedView {
                        height,
                        hash: block.hash@,
                        previous_hash: header.subrange(4, 36),
                        time: bytes::le_value(header.subrange(100, 104)) as u32,
                        header,
                        transactions: tally.transactions,
                        sapling_additions: tally.sapling as u32,
                        orchard_additions: tally.orchard as u32,
                        ironwood_additions: tally.ironwood as u32,
                    },
                )
            },
        }
    }
}

/// An error among the first transactions is the error of them all.
proof fn lemma_tally_fails(
    height: u32,
    transactions: Seq<RawIndexTransaction>,
    count: nat,
    all: nat,
)
    requires
        count <= all,
        tally_transactions(height, transactions, count) is Err,
    ensures
        tally_transactions(height, transactions, all) == tally_transactions(
            height,
            transactions,
            count,
        ),
    decreases all,
{
    if count < all {
        lemma_tally_fails(height, transactions, count, (all - 1) as nat);
    }
}

/// Reads the compact data of a block.
pub fn parse_block(block: &RawIndexBlock) -> (parsed: Result<
    PreparedCompactBlock,
    CompactParseError,
>)
    ensures
        match parsed {
            Ok(prepared) => read_block(*block) == Ok::<PreparedView, CompactParseError>(prepared@),
            Err(error) => read_block(*block) == Err::<PreparedView, CompactParseError>(error),
        },
{
    let height: u32 = block.height;
    if block.header.len() < 104 {
        return Err(CompactParseError::TruncatedHeader { height });
    }
    let previous_hash: [u8; 32] = bytes::get_array(block.header.as_slice(), 4);
    let time: u32 = bytes::get_u32_le(block.header.as_slice(), 100);
    let mut transactions: Vec<CompactTransaction> = Vec::new();
    let mut sapling_additions: usize = 0;
    let mut orchard_additions: usize = 0;
    let mut ironwood_additions: usize = 0;
    let mut index: usize = 0;
    let ghost count = block.transactions@.len();
    assert(transactions_view(transactions@) =~= Seq::empty());
    while index < block.transactions.len()
        invariant
            index <= block.transactions@.len(),
            height == block.height,
            count == block.transactions@.len(),
            block.header@.len() >= 104,
            tally_transactions(height, block.transactions@, index as nat) == Ok::<
                Tally,
                CompactParseError,
            >(
                Tally {
                    transactions: transactions_view(transactions@),
                    sapling: sapling_additions as nat,
                    orchard: orchard_additions as nat,
                    ironwood: ironwood_additions as nat,
                },
            ),
        decreases block.transactions@.len() - index,
    {
        let compact = match parse_transaction(&block.transactions[index], index as u64) {
            Ok(compact) => compact,
            Err(source) => {
                let error = CompactParseError::Transaction { height, index, source };
                proof {
                    lemma_tally_fails(height, block.transactions@, (index + 1) as nat, count);
                }
                return Err(error);
            },
        };
        let sapling: Option<usize> = sapling_additions.checked_add(compact.sapling_outputs.len());
        let orchard: Option<usize> = orchard_additions.checked_add(compact.orchard_actions.len());
        let ironwood: Option<usize> = ironwood_additions.checked_add(
            compact.ironwood_actions.len(),
        );
        match (sapling, orchard, ironwood) {
            (Some(sapling), Some(orchard), Some(ironwood)) => {
                sapling_additions = sapling;
                orchard_additions = orchard;
                ironwood_additions = ironwood;
            },
            _ => {
                proof {
                    lemma_tally_fails(height, block.transactions@, (index + 1) as nat, count);
                }
                return Err(CompactParseError::CommitmentCount { height });
            },
        }
        let ghost done = transactions_view(transactions@);
        if compact.has_payload() {
            transactions.push(compact);
            assert(transactions_view(transactions@) =~= done.push(compact@));
        }
        index = index + 1;
    }
    let sapling_additions: u32 = match u32::try_from(sapling_additions) {
        Ok(additions) => additions,
        Err(_) => return Err(CompactParseError::CommitmentCount { height }),
    };
    let orchard_additions: u32 = match u32::try_from(orchard_additions) {
        Ok(additions) => additions,
        Err(_) => return Err(CompactParseError::CommitmentCount { height }),
    };
    let ironwood_additions: u32 = match u32::try_from(ironwood_additions) {
        Ok(additions) => additions,
        Err(_) => return Err(CompactParseError::CommitmentCount { height }),
    };
    assert(block.header@.subrange(0, block.header@.len() as int) =~= block.header@);
    Ok(
        PreparedCompactBlock {
            height,
            hash: block.hash,
            previous_hash,
            time,
            header: bytes::copy_range(block.header.as_slice(), 0, block.header.len()),
            transactions,
            sapling_additions,
            orchard_additions,
            ironwood_additions,
        },
    )
}

// ---------------------------------------------------------------------------
// Laws
// ---------------------------------------------------------------------------

/// A number as a CompactSize.
pub open spec fn compact_size_bytes(value: nat) -> Seq<u8> {
    if value < 253 {
        seq![value as u8]
    } else if value < 0x1_0000 {
        seq![253u8] + bytes::le_bytes(value, 2)
    } else if value < 0x1_0000_0000 {
        seq![254u8] + bytes::le_bytes(value, 4)
    } else {
        seq![255u8] + bytes::le_bytes(value, 8)
    }
}

/// A number written as a CompactSize is read back, and its bytes are all that is read.
pub proof fn law_compact_size_round_trip(before: Seq<u8>, value: u64, after: Seq<u8>, max: nat)
    requires
        value <= max,
    ensures
        compact_size(
            before + compact_size_bytes(value as nat) + after,
            Ok(before.len() as int),
            max,
        ) == Ok::<(nat, int), TransactionParseError>(
            (value as nat, (before.len() + compact_size_bytes(value as nat).len()) as int),
        ),
{
    let number = compact_size_bytes(value as nat);
    let whole = before + number + after;
    let at = before.len() as int;
    bytes::lemma_byte_limits();
    if value >= 253 {
        let width: nat = if value < 0x1_0000 {
            2
        } else if value < 0x1_0000_0000 {
            4
        } else {
            8
        };
        bytes::lemma_le_round_trip(value as nat, width);
        assert(whole.subrange(at + 1, at + 1 + width) =~= bytes::le_bytes(value as nat, width));
    }
    assert(whole[at] == number[0]);
}

/// No list of a transaction that parses is longer than a vector may be.
pub proof fn law_parsed_lists_are_bounded(bytes: Seq<u8>, txid: Seq<u8>, index: u64)
    requires
        read_transaction(bytes, txid, index) is Ok,
    ensures
        ({
            let parsed = read_transaction(bytes, txid, index)->Ok_0;
            &&& parsed.sapling_spends.len() <= MAX_VECTOR_ITEMS
            &&& parsed.sapling_outputs.len() <= MAX_VECTOR_ITEMS
            &&& parsed.orchard_actions.len() <= MAX_VECTOR_ITEMS
            &&& parsed.ironwood_actions.len() <= MAX_VECTOR_ITEMS
        }),
{
    reveal(read_transaction);
    reveal(transaction_body);
    reveal(body_v4);
    reveal(body_v5);
    reveal(body_v6);
}

/// Number of Sapling outputs in transactions.
pub open spec fn sapling_total(transactions: Seq<TransactionView>) -> nat
    decreases transactions.len(),
{
    if transactions.len() == 0 {
        0
    } else {
        sapling_total(transactions.drop_last()) + transactions.last().sapling_outputs.len()
    }
}

/// Number of Orchard actions in transactions.
pub open spec fn orchard_total(transactions: Seq<TransactionView>) -> nat
    decreases transactions.len(),
{
    if transactions.len() == 0 {
        0
    } else {
        orchard_total(transactions.drop_last()) + transactions.last().orchard_actions.len()
    }
}

/// Number of Ironwood actions in transactions.
pub open spec fn ironwood_total(transactions: Seq<TransactionView>) -> nat
    decreases transactions.len(),
{
    if transactions.len() == 0 {
        0
    } else {
        ironwood_total(transactions.drop_last()) + transactions.last().ironwood_actions.len()
    }
}

/// The additions are the note commitments of the kept transactions.
pub open spec fn additions_match(
    transactions: Seq<TransactionView>,
    sapling: nat,
    orchard: nat,
    ironwood: nat,
) -> bool {
    &&& sapling == sapling_total(transactions)
    &&& orchard == orchard_total(transactions)
    &&& ironwood == ironwood_total(transactions)
}

proof fn lemma_tally_totals(height: u32, transactions: Seq<RawIndexTransaction>, count: nat)
    requires
        tally_transactions(height, transactions, count) is Ok,
    ensures
        ({
            let tally = tally_transactions(height, transactions, count)->Ok_0;
            additions_match(tally.transactions, tally.sapling, tally.orchard, tally.ironwood)
        }),
    decreases count,
{
    if count > 0 {
        lemma_tally_totals(height, transactions, (count - 1) as nat);
        let before = tally_transactions(height, transactions, (count - 1) as nat)->Ok_0;
        let tally = tally_transactions(height, transactions, count)->Ok_0;
        let raw = transactions[count - 1];
        let compact = read_transaction(raw.bytes@, raw.txid@, (count - 1) as u64)->Ok_0;
        if has_payload(compact) {
            assert(tally.transactions.drop_last() =~= before.transactions);
        }
    }
}

/// A block adds to each tree the note commitments of its transactions, so leaving out those
/// without shielded data loses none.
pub proof fn law_block_additions(block: RawIndexBlock)
    requires
        read_block(block) is Ok,
    ensures
        ({
            let prepared = read_block(block)->Ok_0;
            additions_match(
                prepared.transactions,
                prepared.sapling_additions as nat,
                prepared.orchard_additions as nat,
                prepared.ironwood_additions as nat,
            )
        }),
{
    lemma_tally_totals(block.height, block.transactions@, block.transactions@.len());
}

/// `transaction` is what the block's transaction of the same index parses to, and has shielded
/// data.
pub open spec fn is_kept(transactions: Seq<RawIndexTransaction>, transaction: TransactionView) -> bool {
    let raw = transactions[transaction.index as int];
    &&& transaction.index < transactions.len()
    &&& has_payload(transaction)
    &&& read_transaction(raw.bytes@, raw.txid@, transaction.index) == Ok::<
        TransactionView,
        TransactionParseError,
    >(transaction)
}

pub open spec fn indices_increase(transactions: Seq<TransactionView>) -> bool {
    forall|i: int, j: int|
        0 <= i < j < transactions.len() ==> (#[trigger] transactions[i]).index < (
        #[trigger] transactions[j]).index
}

proof fn lemma_parsed_index(bytes: Seq<u8>, txid: Seq<u8>, index: u64)
    requires
        read_transaction(bytes, txid, index) is Ok,
    ensures
        read_transaction(bytes, txid, index)->Ok_0.index == index,
        read_transaction(bytes, txid, index)->Ok_0.txid == txid,
{
    reveal(read_transaction);
}

proof fn lemma_tally_keeps(height: u32, transactions: Seq<RawIndexTransaction>, count: nat)
    requires
        count <= transactions.len() <= u64::MAX,
        tally_transactions(height, transactions, count) is Ok,
    ensures
        ({
            let kept = tally_transactions(height, transactions, count)->Ok_0.transactions;
            &&& indices_increase(kept)
            &&& forall|i: int|
                0 <= i < kept.len() ==> is_kept(transactions, #[trigger] kept[i]) && kept[i].index
                    < count
            &&& forall|i: int|
                0 <= i < count ==> #[trigger] keeps_if_shielded(transactions, kept, i)
        }),
    decreases count,
{
    if count > 0 {
        let last = count - 1;
        lemma_tally_keeps(height, transactions, last as nat);
        let before = tally_transactions(height, transactions, last as nat)->Ok_0.transactions;
        let kept = tally_transactions(height, transactions, count)->Ok_0.transactions;
        let raw = transactions[last];
        let compact = read_transaction(raw.bytes@, raw.txid@, last as u64)->Ok_0;
        lemma_parsed_index(raw.bytes@, raw.txid@, last as u64);
        assert forall|i: int| 0 <= i < count implies #[trigger] keeps_if_shielded(
            transactions,
            kept,
            i,
        ) by {
            if i < last {
                assert(keeps_if_shielded(transactions, before, i));
                let parsed = read_transaction(
                    transactions[i].bytes@,
                    transactions[i].txid@,
                    i as u64,
                )->Ok_0;
                if has_payload(parsed) {
                    let k = choose|k: int| 0 <= k < before.len() && before[k] == parsed;
                    assert(kept[k] == parsed);
                }
            } else if has_payload(compact) {
                assert(kept[kept.len() - 1] == compact);
            }
        }
    }
}

/// Transaction `i` parses, and is in `kept` if it has shielded data.
pub open spec fn keeps_if_shielded(
    transactions: Seq<RawIndexTransaction>,
    kept: Seq<TransactionView>,
    i: int,
) -> bool {
    let parsed = read_transaction(transactions[i].bytes@, transactions[i].txid@, i as u64);
    parsed is Ok && (has_payload(parsed->Ok_0) ==> kept.contains(parsed->Ok_0))
}

/// A prepared block holds exactly the block's transactions that have shielded data, in the
/// block's order.
pub proof fn law_block_keeps_shielded_transactions(block: RawIndexBlock)
    requires
        block.transactions@.len() <= u64::MAX,
        read_block(block) is Ok,
    ensures
        ({
            let kept = read_block(block)->Ok_0.transactions;
            &&& indices_increase(kept)
            &&& forall|i: int|
                0 <= i < kept.len() ==> is_kept(block.transactions@, #[trigger] kept[i])
            &&& forall|i: int|
                0 <= i < block.transactions@.len() ==> #[trigger] keeps_if_shielded(
                    block.transactions@,
                    kept,
                    i,
                )
        }),
{
    lemma_tally_keeps(block.height, block.transactions@, block.transactions@.len());
}

/// The view of a transaction shows each of its lists, item by item and field by field.
pub proof fn law_transactions_are_viewed_as_they_are(transaction: CompactTransaction)
    ensures
        transaction@.index == transaction.index,
        transaction@.txid == transaction.txid@,
        transaction@.sapling_spends.len() == transaction.sapling_spends@.len(),
        transaction@.sapling_outputs.len() == transaction.sapling_outputs@.len(),
        transaction@.orchard_actions.len() == transaction.orchard_actions@.len(),
        transaction@.ironwood_actions.len() == transaction.ironwood_actions@.len(),
        forall|i: int|
            0 <= i < transaction.sapling_spends@.len() ==> #[trigger] transaction@.sapling_spends[i]
                == transaction.sapling_spends@[i]@,
        forall|i: int|
            0 <= i < transaction.sapling_outputs@.len() ==> ({
                let output = transaction.sapling_outputs@[i];
                let view = #[trigger] transaction@.sapling_outputs[i];
                view.cmu == output.cmu@ && view.ephemeral_key == output.ephemeral_key@
                    && view.ciphertext == output.ciphertext@
            }),
        forall|i: int|
            0 <= i < transaction.orchard_actions@.len() ==> ({
                let action = transaction.orchard_actions@[i];
                let view = #[trigger] transaction@.orchard_actions[i];
                view.nullifier == action.nullifier@ && view.commitment == action.commitment@
                    && view.ephemeral_key == action.ephemeral_key@ && view.ciphertext
                    == action.ciphertext@
            }),
        forall|i: int|
            0 <= i < transaction.ironwood_actions@.len() ==> ({
                let action = transaction.ironwood_actions@[i];
                let view = #[trigger] transaction@.ironwood_actions[i];
                view.nullifier == action.nullifier@ && view.commitment == action.commitment@
                    && view.ephemeral_key == action.ephemeral_key@ && view.ciphertext
                    == action.ciphertext@
            }),
{
}

/// The view of a prepared block shows each of its fields, and its transactions in order.
pub proof fn law_prepared_blocks_are_viewed_as_they_are(block: PreparedCompactBlock)
    ensures
        block@.height == block.height,
        block@.hash == block.hash@,
        block@.previous_hash == block.previous_hash@,
        block@.time == block.time,
        block@.header == block.header@,
        block@.transactions.len() == block.transactions@.len(),
        forall|i: int|
            0 <= i < block.transactions@.len() ==> #[trigger] block@.transactions[i]
                == block.transactions@[i]@,
        block@.sapling_additions == block.sapling_additions,
        block@.orchard_additions == block.orchard_additions,
        block@.ironwood_additions == block.ironwood_additions,
{
}

/// A transaction has shielded data exactly where one of its four lists is not empty.
pub proof fn law_any_list_is_payload(transaction: CompactTransaction)
    ensures
        transaction.sapling_spends@.len() > 0 ==> has_payload(transaction@),
        transaction.sapling_outputs@.len() > 0 ==> has_payload(transaction@),
        transaction.orchard_actions@.len() > 0 ==> has_payload(transaction@),
        transaction.ironwood_actions@.len() > 0 ==> has_payload(transaction@),
        transaction.sapling_spends@.len() == 0 && transaction.sapling_outputs@.len() == 0
            && transaction.orchard_actions@.len() == 0 && transaction.ironwood_actions@.len() == 0
            ==> !has_payload(transaction@),
{
}

/// A prepared block keeps a transaction wherever any of its lists has an item, whichever list it
/// is, and no transaction without items. So every nullifier, output and action in the block's
/// transactions is in the prepared block, under the transaction's place.
pub proof fn law_no_shielded_item_is_lost(block: RawIndexBlock, i: int)
    requires
        block.transactions@.len() <= u64::MAX,
        read_block(block) is Ok,
        0 <= i < block.transactions@.len(),
    ensures
        ({
            let raw = block.transactions@[i];
            let kept = read_block(block)->Ok_0.transactions;
            &&& read_transaction(raw.bytes@, raw.txid@, i as u64) matches Ok(parsed) && {
                &&& parsed.sapling_spends.len() > 0 ==> kept.contains(parsed)
                &&& parsed.sapling_outputs.len() > 0 ==> kept.contains(parsed)
                &&& parsed.orchard_actions.len() > 0 ==> kept.contains(parsed)
                &&& parsed.ironwood_actions.len() > 0 ==> kept.contains(parsed)
                &&& forall|k: int|
                    0 <= k < kept.len() && (#[trigger] kept[k]).index == i ==> kept[k] == parsed && (
                    parsed.sapling_spends.len() > 0 || parsed.sapling_outputs.len() > 0
                        || parsed.orchard_actions.len() > 0 || parsed.ironwood_actions.len() > 0)
                &&& parsed.index == i
                &&& parsed.txid == raw.txid@
            }
        }),
{
    let raw = block.transactions@[i];
    let kept = read_block(block)->Ok_0.transactions;
    lemma_tally_keeps(block.height, block.transactions@, block.transactions@.len());
    assert(keeps_if_shielded(block.transactions@, kept, i));
    lemma_parsed_index(raw.bytes@, raw.txid@, i as u64);
    assert forall|k: int| 0 <= k < kept.len() && (#[trigger] kept[k]).index == i implies kept[k]
        == read_transaction(raw.bytes@, raw.txid@, i as u64)->Ok_0 && (kept[k].sapling_spends.len()
        > 0 || kept[k].sapling_outputs.len() > 0 || kept[k].orchard_actions.len() > 0
        || kept[k].ironwood_actions.len() > 0) by {
        assert(is_kept(block.transactions@, kept[k]));
    }
}

proof fn lemma_tally_of_front(
    height: u32,
    transactions: Seq<RawIndexTransaction>,
    last: RawIndexTransaction,
    count: nat,
)
    requires
        count <= transactions.len(),
    ensures
        tally_transactions(height, transactions.push(last), count) == tally_transactions(
            height,
            transactions,
            count,
        ),
    decreases count,
{
    if count > 0 {
        lemma_tally_of_front(height, transactions, last, (count - 1) as nat);
    }
}

/// A block that has one more transaction than another adds to each tree as many commitments more
/// as that transaction has Sapling outputs, Orchard actions and Ironwood actions, and keeps the
/// transaction behind those of the other where any of its lists has an item; all else is the same.
pub proof fn law_block_grows_by_its_last_transaction(
    block: RawIndexBlock,
    shorter: RawIndexBlock,
    last: RawIndexTransaction,
)
    requires
        block.height == shorter.height,
        block.hash == shorter.hash,
        block.header@ == shorter.header@,
        block.transactions@ == shorter.transactions@.push(last),
        read_block(block) is Ok,
    ensures
        read_block(shorter) is Ok,
        read_transaction(last.bytes@, last.txid@, shorter.transactions@.len() as u64) is Ok,
        ({
            let more = read_transaction(
                last.bytes@,
                last.txid@,
                shorter.transactions@.len() as u64,
            )->Ok_0;
            let before = read_block(shorter)->Ok_0;
            let after = read_block(block)->Ok_0;
            &&& after.sapling_additions == before.sapling_additions + more.sapling_outputs.len()
            &&& after.orchard_additions == before.orchard_additions + more.orchard_actions.len()
            &&& after.ironwood_additions == before.ironwood_additions + more.ironwood_actions.len()
            &&& after.transactions == if more.sapling_spends.len() + more.sapling_outputs.len()
                + more.orchard_actions.len() + more.ironwood_actions.len() > 0 {
                before.transactions.push(more)
            } else {
                before.transactions
            }
            &&& after.height == before.height
            &&& after.hash == before.hash
            &&& after.previous_hash == before.previous_hash
            &&& after.time == before.time
            &&& after.header == before.header
        }),
{
    lemma_tally_of_front(
        block.height,
        shorter.transactions@,
        last,
        shorter.transactions@.len(),
    );
}

/// A block without transactions adds no commitment and keeps no transaction. Its fields are those
/// of the block, with the previous hash in bytes 4 to 35 of the header and the time in bytes 100 to
/// 103, lowest byte first.
pub proof fn law_header_fields_are_read_at_their_places(block: RawIndexBlock)
    requires
        block.header@.len() >= 104,
        block.transactions@.len() == 0,
    ensures
        read_block(block) matches Ok(prepared) && {
            &&& prepared.height == block.height
            &&& prepared.hash == block.hash@
            &&& prepared.header == block.header@
            &&& prepared.previous_hash.len() == 32
            &&& forall|i: int|
                0 <= i < 32 ==> #[trigger] prepared.previous_hash[i] == block.header@[4 + i]
            &&& prepared.time == block.header@[100] + 0x100 * block.header@[101] + 0x1_0000
                * block.header@[102] + 0x100_0000 * block.header@[103]
            &&& prepared.transactions.len() == 0
            &&& prepared.sapling_additions == 0
            &&& prepared.orchard_additions == 0
            &&& prepared.ironwood_additions == 0
        },
{
    bytes::lemma_le_value_4(block.header@.subrange(100, 104));
}

proof fn lemma_tally_is_small(height: u32, transactions: Seq<RawIndexTransaction>, count: nat)
    requires
        count <= transactions.len(),
        65_535 * count <= 4_294_967_295,
        forall|i: int|
            0 <= i < count ==> read_transaction(
                (#[trigger] transactions[i]).bytes@,
                transactions[i].txid@,
                i as u64,
            ) is Ok,
    ensures
        tally_transactions(height, transactions, count) matches Ok(tally) && tally.sapling <= 65_535
            * count && tally.orchard <= 65_535 * count && tally.ironwood <= 65_535 * count,
    decreases count,
{
    if count > 0 {
        lemma_tally_is_small(height, transactions, (count - 1) as nat);
        let raw = transactions[count - 1];
        law_parsed_lists_are_bounded(raw.bytes@, raw.txid@, (count - 1) as u64);
    }
}

/// A block with a whole header whose transactions all parse is prepared.
pub proof fn law_good_blocks_are_prepared(block: RawIndexBlock)
    requires
        block.header@.len() >= 104,
        65_535 * block.transactions@.len() <= 4_294_967_295,
        forall|i: int|
            0 <= i < block.transactions@.len() ==> read_transaction(
                (#[trigger] block.transactions@[i]).bytes@,
                block.transactions@[i].txid@,
                i as u64,
            ) is Ok,
    ensures
        read_block(block) is Ok,
{
    lemma_tally_is_small(block.height, block.transactions@, block.transactions@.len());
}

/// A block with a header that is too short is refused for it, whatever its transactions are; else
/// the first transaction that does not parse is named, with its place and what is wrong with it.
pub proof fn law_bad_blocks_are_refused(block: RawIndexBlock, first_bad: int)
    requires
        0 <= first_bad < block.transactions@.len(),
        65_535 * (first_bad + 1) <= 4_294_967_295,
        forall|i: int|
            0 <= i < first_bad ==> read_transaction(
                (#[trigger] block.transactions@[i]).bytes@,
                block.transactions@[i].txid@,
                i as u64,
            ) is Ok,
        read_transaction(
            block.transactions@[first_bad].bytes@,
            block.transactions@[first_bad].txid@,
            first_bad as u64,
        ) is Err,
    ensures
        read_block(block) == Err::<PreparedView, CompactParseError>(
            if block.header@.len() < 104 {
                CompactParseError::TruncatedHeader { height: block.height }
            } else {
                CompactParseError::Transaction {
                    height: block.height,
                    index: first_bad as usize,
                    source: read_transaction(
                        block.transactions@[first_bad].bytes@,
                        block.transactions@[first_bad].txid@,
                        first_bad as u64,
                    )->Err_0,
                }
            },
        ),
{
    lemma_tally_is_small(block.height, block.transactions@, first_bad as nat);
    lemma_tally_fails(
        block.height,
        block.transactions@,
        (first_bad + 1) as nat,
        block.transactions@.len(),
    );
}

/// A list may have up to 65,535 items: that many are counted wherever their number is written, and
/// a larger number is refused at its place.
pub proof fn law_item_counts_end_at_sixteen_bits(before: Seq<u8>, count: u64, after: Seq<u8>)
    requires
        before.len() <= usize::MAX,
    ensures
        ({
            let number = compact_size_bytes(count as nat);
            item_count(before + number + after, Ok(before.len() as int)) == if count <= 65_535 {
                Ok::<(nat, int), TransactionParseError>(
                    (count as nat, (before.len() + number.len()) as int),
                )
            } else {
                Err(TransactionParseError::LengthLimit { offset: before.len() as usize })
            }
        }),
{
    law_compact_size_round_trip(before, count, after, count as nat);
}

/// Bytes over two million are no transaction, whatever they hold, and under four bytes there is
/// nothing to read; between them only the six known headers are read on.
pub proof fn law_only_known_headers_are_read(bytes: Seq<u8>, txid: Seq<u8>, index: u64)
    ensures
        bytes.len() > 2_000_000 ==> read_transaction(bytes, txid, index) == Err::<
            TransactionView,
            TransactionParseError,
        >(TransactionParseError::TooLarge),
        bytes.len() < 4 ==> read_transaction(bytes, txid, index) == Err::<
            TransactionView,
            TransactionParseError,
        >(TransactionParseError::Truncated { offset: 0 }),
        4 <= bytes.len() <= 2_000_000 ==> ({
            let header = bytes[0] + 0x100 * bytes[1] + 0x1_0000 * bytes[2] + 0x100_0000 * bytes[3];
            let read = read_transaction(bytes, txid, index);
            &&& read matches Err(error) ==> error !is TooLarge
            &&& header != 1 && header != 2 && !(0x8000_0003 <= header <= 0x8000_0006) ==> read
                == Err::<TransactionView, TransactionParseError>(
                TransactionParseError::UnsupportedHeader { header: header as u32 },
            )
        }),
{
    reveal(read_transaction);
    if 4 <= bytes.len() <= 2_000_000 {
        bytes::lemma_le_value_4(bytes.subrange(0, 4));
        let header = bytes::le_value(bytes.subrange(0, 4)) as u32;
        lemma_body_versions(bytes, header);
        lemma_body_is_never_too_large(bytes, header);
    }
}

proof fn lemma_transparent_is_never_too_large(bytes: Seq<u8>, from: Step, count: nat)
    requires
        from matches Err(error) ==> error !is TooLarge,
    ensures
        skip_inputs(bytes, from, count) matches Err(error) ==> error !is TooLarge,
        skip_outputs(bytes, from, count) matches Err(error) ==> error !is TooLarge,
    decreases count,
{
    if count > 0 {
        lemma_transparent_is_never_too_large(bytes, skip_input(bytes, from), (count - 1) as nat);
        lemma_transparent_is_never_too_large(bytes, skip_output(bytes, from), (count - 1) as nat);
    }
}

proof fn lemma_skip_transparent_is_never_too_large(bytes: Seq<u8>, from: Step)
    requires
        from matches Err(error) ==> error !is TooLarge,
    ensures
        skip_transparent(bytes, from) matches Err(error) ==> error !is TooLarge,
{
    if let Ok((inputs, at)) = item_count(bytes, from) {
        lemma_transparent_is_never_too_large(bytes, Ok(at), inputs);
        let middle = skip_inputs(bytes, Ok(at), inputs);
        if let Ok((outputs, at)) = item_count(bytes, middle) {
            lemma_transparent_is_never_too_large(bytes, Ok(at), outputs);
        }
    }
}

proof fn lemma_v4_is_never_too_large(bytes: Seq<u8>)
    ensures
        body_v4(bytes, Ok(4)) matches Err(error) ==> error !is TooLarge,
{
    reveal(body_v4);
    lemma_skip_transparent_is_never_too_large(bytes, skip_group(bytes, Ok(4), SAPLING_GROUP_ID));
}

proof fn lemma_sapling_v5_is_never_too_large(bytes: Seq<u8>, group: u32)
    ensures
        skip_v5_prefix(bytes, Ok(4), group) matches Err(error) ==> error !is TooLarge,
        sapling_v5(bytes, skip_v5_prefix(bytes, Ok(4), group)) matches Err(error) ==> error
            !is TooLarge,
{
    lemma_skip_transparent_is_never_too_large(
        bytes,
        skip(bytes, skip_group(bytes, Ok(4), group), 12),
    );
}

proof fn lemma_actions_are_never_too_large(bytes: Seq<u8>, at: int)
    ensures
        shielded_actions(bytes, Ok(at)) matches Err(error) ==> error !is TooLarge,
{
}

proof fn lemma_v5_is_never_too_large(bytes: Seq<u8>)
    ensures
        body_v5(bytes, Ok(4)) matches Err(error) ==> error !is TooLarge,
{
    reveal(body_v5);
    lemma_sapling_v5_is_never_too_large(bytes, V5_GROUP_ID);
    if let Ok(sapling) = sapling_v5(bytes, skip_v5_prefix(bytes, Ok(4), V5_GROUP_ID)) {
        lemma_actions_are_never_too_large(bytes, sapling.end);
    }
}

proof fn lemma_v6_is_never_too_large(bytes: Seq<u8>)
    ensures
        body_v6(bytes, Ok(4)) matches Err(error) ==> error !is TooLarge,
{
    reveal(body_v6);
    lemma_sapling_v5_is_never_too_large(bytes, V6_GROUP_ID);
    if let Ok(sapling) = sapling_v5(bytes, skip_v5_prefix(bytes, Ok(4), V6_GROUP_ID)) {
        lemma_actions_are_never_too_large(bytes, sapling.end);
        if let Ok((_, end)) = shielded_actions(bytes, Ok(sapling.end)) {
            lemma_actions_are_never_too_large(bytes, end);
        }
    }
}

proof fn lemma_body_is_never_too_large(bytes: Seq<u8>, header: u32)
    ensures
        transaction_body(bytes, header) matches Err(error) ==> error !is TooLarge,
{
    if header == 0x8000_0004 {
        lemma_body_versions(bytes, header);
        lemma_v4_is_never_too_large(bytes);
    } else if header == 0x8000_0005 {
        lemma_body_versions(bytes, header);
        lemma_v5_is_never_too_large(bytes);
    } else if header == 0x8000_0006 {
        lemma_body_versions(bytes, header);
        lemma_v6_is_never_too_large(bytes);
    } else {
        reveal(transaction_body);
        lemma_skip_transparent_is_never_too_large(bytes, Ok(4));
        lemma_skip_transparent_is_never_too_large(
            bytes,
            skip_group(bytes, Ok(4), OVERWINTER_GROUP_ID),
        );
    }
}

} // verus!
