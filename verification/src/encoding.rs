//! The serialization of transactions, all fields of them, and what reading gives back of it.
use vstd::prelude::*;

use crate::bytes;
use crate::parser;
use crate::parser::{
    ActionView, OutputView, SaplingPart, ShieldedPart, TransactionParseError, TransactionView,
    BCTV14_JOINSPLIT_BYTES, GROTH16_JOINSPLIT_BYTES, MAX_TRANSACTION_BYTES, MAX_VECTOR_ITEMS,
    OVERWINTER_GROUP_ID, SAPLING_GROUP_ID, V5_GROUP_ID, V6_GROUP_ID,
};

pub mod canonical;
pub mod prefix;

verus! {

// ---------------------------------------------------------------------------
// Transactions
// ---------------------------------------------------------------------------

/// A transparent input.
pub struct FullInput {
    pub outpoint: Seq<u8>,
    pub script: Seq<u8>,
    pub sequence: Seq<u8>,
}

/// A transparent output.
pub struct FullOutput {
    pub value: Seq<u8>,
    pub script: Seq<u8>,
}

/// A Sapling spend; from version 5 on the anchor is shared.
pub struct FullSpend {
    pub value_commitment: Seq<u8>,
    pub anchor: Seq<u8>,
    pub nullifier: Seq<u8>,
    pub key: Seq<u8>,
    pub proof: Seq<u8>,
    pub signature: Seq<u8>,
}

/// A Sapling output.
pub struct FullSaplingOutput {
    pub value_commitment: Seq<u8>,
    pub cmu: Seq<u8>,
    pub ephemeral_key: Seq<u8>,
    pub ciphertext: Seq<u8>,
    pub out_ciphertext: Seq<u8>,
    pub proof: Seq<u8>,
}

/// The Sapling bundle of a transaction.
pub struct SaplingBundle {
    pub spends: Seq<FullSpend>,
    pub outputs: Seq<FullSaplingOutput>,
    pub balance: Seq<u8>,
    pub shared_anchor: Seq<u8>,
    pub binding_signature: Seq<u8>,
}

/// An Orchard or Ironwood action.
pub struct FullAction {
    pub value_commitment: Seq<u8>,
    pub nullifier: Seq<u8>,
    pub key: Seq<u8>,
    pub commitment: Seq<u8>,
    pub ephemeral_key: Seq<u8>,
    pub ciphertext: Seq<u8>,
    pub out_ciphertext: Seq<u8>,
    pub signature: Seq<u8>,
}

/// The Orchard or Ironwood bundle of a transaction.
pub struct ActionBundle {
    pub actions: Seq<FullAction>,
    pub flags: Seq<u8>,
    pub balance: Seq<u8>,
    pub anchor: Seq<u8>,
    pub proof: Seq<u8>,
    pub binding_signature: Seq<u8>,
}

/// The JoinSplits of a transaction, and the key and signature of all of them.
pub struct JoinSplitBundle {
    pub joinsplits: Seq<Seq<u8>>,
    pub key_and_signature: Seq<u8>,
}

/// A transaction with all its fields, of a version from 1 to 6.
pub enum FullTransaction {
    V1 { inputs: Seq<FullInput>, outputs: Seq<FullOutput>, lock_time: Seq<u8> },
    V2 {
        inputs: Seq<FullInput>,
        outputs: Seq<FullOutput>,
        lock_time: Seq<u8>,
        joinsplits: JoinSplitBundle,
    },
    V3 {
        inputs: Seq<FullInput>,
        outputs: Seq<FullOutput>,
        lock_time: Seq<u8>,
        expiry_height: Seq<u8>,
        joinsplits: JoinSplitBundle,
    },
    V4 {
        inputs: Seq<FullInput>,
        outputs: Seq<FullOutput>,
        lock_time: Seq<u8>,
        expiry_height: Seq<u8>,
        sapling: SaplingBundle,
        joinsplits: JoinSplitBundle,
    },
    V5 {
        branch_id: Seq<u8>,
        lock_time: Seq<u8>,
        expiry_height: Seq<u8>,
        inputs: Seq<FullInput>,
        outputs: Seq<FullOutput>,
        sapling: SaplingBundle,
        orchard: ActionBundle,
    },
    V6 {
        branch_id: Seq<u8>,
        lock_time: Seq<u8>,
        expiry_height: Seq<u8>,
        inputs: Seq<FullInput>,
        outputs: Seq<FullOutput>,
        sapling: SaplingBundle,
        orchard: ActionBundle,
        ironwood: ActionBundle,
    },
}

// ---------------------------------------------------------------------------
// Widths
// ---------------------------------------------------------------------------

pub open spec fn transparent_fits(inputs: Seq<FullInput>, outputs: Seq<FullOutput>) -> bool {
    &&& inputs.len() <= MAX_VECTOR_ITEMS
    &&& outputs.len() <= MAX_VECTOR_ITEMS
    &&& forall|i: int|
        0 <= i < inputs.len() ==> (#[trigger] inputs[i]).outpoint.len() == 36
            && inputs[i].sequence.len() == 4
    &&& forall|i: int| 0 <= i < outputs.len() ==> (#[trigger] outputs[i]).value.len() == 8
}

pub open spec fn joinsplits_fit(bundle: JoinSplitBundle, size: nat) -> bool {
    &&& bundle.joinsplits.len() <= MAX_VECTOR_ITEMS
    &&& forall|i: int|
        0 <= i < bundle.joinsplits.len() ==> (#[trigger] bundle.joinsplits[i]).len() == size
    &&& bundle.key_and_signature.len() == 96
}

pub open spec fn spend_fits(spend: FullSpend) -> bool {
    &&& spend.value_commitment.len() == 32
    &&& spend.anchor.len() == 32
    &&& spend.nullifier.len() == 32
    &&& spend.key.len() == 32
    &&& spend.proof.len() == 192
    &&& spend.signature.len() == 64
}

pub open spec fn output_fits(output: FullSaplingOutput) -> bool {
    &&& output.value_commitment.len() == 32
    &&& output.cmu.len() == 32
    &&& output.ephemeral_key.len() == 32
    &&& output.ciphertext.len() == 580
    &&& output.out_ciphertext.len() == 80
    &&& output.proof.len() == 192
}

pub open spec fn sapling_fits(bundle: SaplingBundle) -> bool {
    &&& bundle.spends.len() <= MAX_VECTOR_ITEMS
    &&& bundle.outputs.len() <= MAX_VECTOR_ITEMS
    &&& forall|i: int| 0 <= i < bundle.spends.len() ==> spend_fits(#[trigger] bundle.spends[i])
    &&& forall|i: int| 0 <= i < bundle.outputs.len() ==> output_fits(#[trigger] bundle.outputs[i])
    &&& bundle.balance.len() == 8
    &&& bundle.shared_anchor.len() == 32
    &&& bundle.binding_signature.len() == 64
}

pub open spec fn action_fits(action: FullAction) -> bool {
    &&& action.value_commitment.len() == 32
    &&& action.nullifier.len() == 32
    &&& action.key.len() == 32
    &&& action.commitment.len() == 32
    &&& action.ephemeral_key.len() == 32
    &&& action.ciphertext.len() == 580
    &&& action.out_ciphertext.len() == 80
    &&& action.signature.len() == 64
}

pub open spec fn actions_fit(bundle: ActionBundle) -> bool {
    &&& bundle.actions.len() <= MAX_VECTOR_ITEMS
    &&& forall|i: int| 0 <= i < bundle.actions.len() ==> action_fits(#[trigger] bundle.actions[i])
    &&& bundle.flags.len() == 1
    &&& bundle.balance.len() == 8
    &&& bundle.anchor.len() == 32
    &&& bundle.binding_signature.len() == 64
}

/// Every field has its width, and no list has more items than a vector may have.
pub open spec fn is_full(transaction: FullTransaction) -> bool {
    match transaction {
        FullTransaction::V1 { inputs, outputs, lock_time } => transparent_fits(inputs, outputs)
            && lock_time.len() == 4,
        FullTransaction::V2 { inputs, outputs, lock_time, joinsplits } => transparent_fits(
            inputs,
            outputs,
        ) && lock_time.len() == 4 && joinsplits_fit(joinsplits, BCTV14_JOINSPLIT_BYTES as nat),
        FullTransaction::V3 { inputs, outputs, lock_time, expiry_height, joinsplits } =>
            transparent_fits(inputs, outputs) && lock_time.len() == 4 && expiry_height.len() == 4
            && joinsplits_fit(joinsplits, BCTV14_JOINSPLIT_BYTES as nat),
        FullTransaction::V4 { inputs, outputs, lock_time, expiry_height, sapling, joinsplits } =>
            transparent_fits(inputs, outputs) && lock_time.len() == 4 && expiry_height.len() == 4
            && sapling_fits(sapling) && joinsplits_fit(
            joinsplits,
            GROTH16_JOINSPLIT_BYTES as nat,
        ),
        FullTransaction::V5 {
            branch_id,
            lock_time,
            expiry_height,
            inputs,
            outputs,
            sapling,
            orchard,
        } => branch_id.len() == 4 && lock_time.len() == 4 && expiry_height.len() == 4
            && transparent_fits(inputs, outputs) && sapling_fits(sapling) && actions_fit(orchard),
        FullTransaction::V6 {
            branch_id,
            lock_time,
            expiry_height,
            inputs,
            outputs,
            sapling,
            orchard,
            ironwood,
        } => branch_id.len() == 4 && lock_time.len() == 4 && expiry_height.len() == 4
            && transparent_fits(inputs, outputs) && sapling_fits(sapling) && actions_fit(orchard)
            && actions_fit(ironwood),
    }
}

// ---------------------------------------------------------------------------
// Bytes
// ---------------------------------------------------------------------------

/// Items behind their number.
pub open spec fn list_bytes(items: Seq<Seq<u8>>) -> Seq<u8> {
    parser::compact_size_bytes(items.len()) + items.flatten()
}

/// Bytes behind their number.
pub open spec fn string_bytes(string: Seq<u8>) -> Seq<u8> {
    parser::compact_size_bytes(string.len()) + string
}

pub open spec fn input_bytes(input: FullInput) -> Seq<u8> {
    input.outpoint + (string_bytes(input.script) + input.sequence)
}

pub open spec fn output_bytes(output: FullOutput) -> Seq<u8> {
    output.value + string_bytes(output.script)
}

pub open spec fn inputs_bytes(inputs: Seq<FullInput>) -> Seq<Seq<u8>> {
    Seq::new(inputs.len(), |i: int| input_bytes(inputs[i]))
}

pub open spec fn outputs_bytes(outputs: Seq<FullOutput>) -> Seq<Seq<u8>> {
    Seq::new(outputs.len(), |i: int| output_bytes(outputs[i]))
}

/// Transparent inputs and outputs.
#[verifier::opaque]
pub open spec fn transparent_bytes(inputs: Seq<FullInput>, outputs: Seq<FullOutput>) -> Seq<u8> {
    list_bytes(inputs_bytes(inputs)) + list_bytes(outputs_bytes(outputs))
}

/// JoinSplits, with their key and signature where there are any.
#[verifier::opaque]
pub open spec fn joinsplit_bytes(bundle: JoinSplitBundle) -> Seq<u8> {
    list_bytes(bundle.joinsplits) + if bundle.joinsplits.len() > 0 {
        bundle.key_and_signature
    } else {
        Seq::empty()
    }
}

/// A spend with its own anchor, proof and signature.
pub open spec fn spend_v4_bytes(spend: FullSpend) -> Seq<u8> {
    spend.value_commitment + spend.anchor + spend.nullifier + spend.key + spend.proof
        + spend.signature
}

/// A spend without anchor, proof and signature.
pub open spec fn spend_v5_bytes(spend: FullSpend) -> Seq<u8> {
    spend.value_commitment + spend.nullifier + spend.key
}

/// An output without its proof.
pub open spec fn output_v5_bytes(output: FullSaplingOutput) -> Seq<u8> {
    output.value_commitment + output.cmu + output.ephemeral_key + output.ciphertext
        + output.out_ciphertext
}

/// An output with its proof.
pub open spec fn output_v4_bytes(output: FullSaplingOutput) -> Seq<u8> {
    output_v5_bytes(output) + output.proof
}

/// An action without its signature.
pub open spec fn action_bytes(action: FullAction) -> Seq<u8> {
    action.value_commitment + action.nullifier + action.key + action.commitment
        + action.ephemeral_key + action.ciphertext + action.out_ciphertext
}

pub open spec fn has_sapling(bundle: SaplingBundle) -> bool {
    bundle.spends.len() > 0 || bundle.outputs.len() > 0
}

pub open spec fn spends_v4(bundle: SaplingBundle) -> Seq<Seq<u8>> {
    Seq::new(bundle.spends.len(), |i: int| spend_v4_bytes(bundle.spends[i]))
}

pub open spec fn outputs_v4(bundle: SaplingBundle) -> Seq<Seq<u8>> {
    Seq::new(bundle.outputs.len(), |i: int| output_v4_bytes(bundle.outputs[i]))
}

pub open spec fn spends_v5(bundle: SaplingBundle) -> Seq<Seq<u8>> {
    Seq::new(bundle.spends.len(), |i: int| spend_v5_bytes(bundle.spends[i]))
}

pub open spec fn outputs_v5(bundle: SaplingBundle) -> Seq<Seq<u8>> {
    Seq::new(bundle.outputs.len(), |i: int| output_v5_bytes(bundle.outputs[i]))
}

/// The spends' proofs, the spends' signatures, the outputs' proofs.
pub open spec fn sapling_proofs(bundle: SaplingBundle) -> Seq<u8> {
    Seq::new(bundle.spends.len(), |i: int| bundle.spends[i].proof).flatten() + (Seq::new(
        bundle.spends.len(),
        |i: int| bundle.spends[i].signature,
    ).flatten() + Seq::new(bundle.outputs.len(), |i: int| bundle.outputs[i].proof).flatten())
}

/// Spends, outputs, JoinSplits, and the binding signature where there are spends or outputs.
#[verifier::opaque]
pub open spec fn sapling_v4_bytes(bundle: SaplingBundle, joinsplits: JoinSplitBundle) -> Seq<u8> {
    list_bytes(spends_v4(bundle)) + (list_bytes(outputs_v4(bundle)) + (joinsplit_bytes(joinsplits)
        + if has_sapling(bundle) {
        bundle.binding_signature
    } else {
        Seq::empty()
    }))
}

/// Spends, outputs, and all that they share where there are any.
#[verifier::opaque]
pub open spec fn sapling_v5_bytes(bundle: SaplingBundle) -> Seq<u8> {
    list_bytes(spends_v5(bundle)) + (list_bytes(outputs_v5(bundle)) + if has_sapling(bundle) {
        bundle.balance + (if bundle.spends.len() > 0 {
            bundle.shared_anchor
        } else {
            Seq::empty()
        } + (sapling_proofs(bundle) + bundle.binding_signature))
    } else {
        Seq::empty()
    })
}

pub open spec fn actions_list(bundle: ActionBundle) -> Seq<Seq<u8>> {
    Seq::new(bundle.actions.len(), |i: int| action_bytes(bundle.actions[i]))
}

/// Actions, and all that they share where there are any.
#[verifier::opaque]
pub open spec fn action_bundle_bytes(bundle: ActionBundle) -> Seq<u8> {
    list_bytes(actions_list(bundle)) + if bundle.actions.len() > 0 {
        (bundle.flags + bundle.balance + bundle.anchor) + (string_bytes(bundle.proof) + (Seq::new(
            bundle.actions.len(),
            |i: int| bundle.actions[i].signature,
        ).flatten() + bundle.binding_signature))
    } else {
        Seq::empty()
    }
}

pub open spec fn u32_bytes(value: u32) -> Seq<u8> {
    bytes::le_bytes(value as nat, 4)
}

/// A transaction as bytes.
pub open spec fn full_bytes(transaction: FullTransaction) -> Seq<u8> {
    match transaction {
        FullTransaction::V1 { inputs, outputs, lock_time } => u32_bytes(1) + (transparent_bytes(
            inputs,
            outputs,
        ) + lock_time),
        FullTransaction::V2 { inputs, outputs, lock_time, joinsplits } => u32_bytes(2) + (
        transparent_bytes(inputs, outputs) + (lock_time + joinsplit_bytes(joinsplits))),
        FullTransaction::V3 { inputs, outputs, lock_time, expiry_height, joinsplits } => u32_bytes(
            0x8000_0003,
        ) + (u32_bytes(OVERWINTER_GROUP_ID) + (transparent_bytes(inputs, outputs) + ((lock_time
            + expiry_height) + joinsplit_bytes(joinsplits)))),
        FullTransaction::V4 { inputs, outputs, lock_time, expiry_height, sapling, joinsplits } =>
            u32_bytes(0x8000_0004) + (u32_bytes(SAPLING_GROUP_ID) + (transparent_bytes(
            inputs,
            outputs,
        ) + ((lock_time + expiry_height + sapling.balance) + sapling_v4_bytes(
            sapling,
            joinsplits,
        )))),
        FullTransaction::V5 {
            branch_id,
            lock_time,
            expiry_height,
            inputs,
            outputs,
            sapling,
            orchard,
        } => u32_bytes(0x8000_0005) + (u32_bytes(V5_GROUP_ID) + ((branch_id + lock_time
            + expiry_height) + (transparent_bytes(inputs, outputs) + (sapling_v5_bytes(sapling)
            + action_bundle_bytes(orchard))))),
        FullTransaction::V6 {
            branch_id,
            lock_time,
            expiry_height,
            inputs,
            outputs,
            sapling,
            orchard,
            ironwood,
        } => u32_bytes(0x8000_0006) + (u32_bytes(V6_GROUP_ID) + ((branch_id + lock_time
            + expiry_height) + (transparent_bytes(inputs, outputs) + (sapling_v5_bytes(sapling) + (
        action_bundle_bytes(orchard) + action_bundle_bytes(ironwood)))))),
    }
}

// ---------------------------------------------------------------------------
// Compact data
// ---------------------------------------------------------------------------

/// What a light client needs of an output: note commitment, key, and the front of the ciphertext.
pub open spec fn compact_output(output: FullSaplingOutput) -> OutputView {
    OutputView {
        cmu: output.cmu,
        ephemeral_key: output.ephemeral_key,
        ciphertext: output.ciphertext.take(52),
    }
}

/// What a light client needs of an action: nullifier, note commitment, key, and the front of the
/// ciphertext.
pub open spec fn compact_action(action: FullAction) -> ActionView {
    ActionView {
        nullifier: action.nullifier,
        commitment: action.commitment,
        ephemeral_key: action.ephemeral_key,
        ciphertext: action.ciphertext.take(52),
    }
}

/// The nullifiers of a bundle's spends.
pub open spec fn compact_spends(bundle: SaplingBundle) -> Seq<Seq<u8>> {
    Seq::new(bundle.spends.len(), |i: int| bundle.spends[i].nullifier)
}

pub open spec fn compact_outputs(bundle: SaplingBundle) -> Seq<OutputView> {
    Seq::new(bundle.outputs.len(), |i: int| compact_output(bundle.outputs[i]))
}

pub open spec fn compact_actions(bundle: ActionBundle) -> Seq<ActionView> {
    Seq::new(bundle.actions.len(), |i: int| compact_action(bundle.actions[i]))
}

/// The compact data of a transaction, bundle by bundle, each list in its order.
pub open spec fn compact_of(transaction: FullTransaction, txid: Seq<u8>, index: u64)
    -> TransactionView {
    let none = TransactionView {
        index,
        txid,
        sapling_spends: Seq::empty(),
        sapling_outputs: Seq::empty(),
        orchard_actions: Seq::empty(),
        ironwood_actions: Seq::empty(),
    };
    match transaction {
        FullTransaction::V4 { sapling, .. } => TransactionView {
            sapling_spends: compact_spends(sapling),
            sapling_outputs: compact_outputs(sapling),
            ..none
        },
        FullTransaction::V5 { sapling, orchard, .. } => TransactionView {
            sapling_spends: compact_spends(sapling),
            sapling_outputs: compact_outputs(sapling),
            orchard_actions: compact_actions(orchard),
            ..none
        },
        FullTransaction::V6 { sapling, orchard, ironwood, .. } => TransactionView {
            sapling_spends: compact_spends(sapling),
            sapling_outputs: compact_outputs(sapling),
            orchard_actions: compact_actions(orchard),
            ironwood_actions: compact_actions(ironwood),
            ..none
        },
        _ => none,
    }
}

// ---------------------------------------------------------------------------
// Reading it back
// ---------------------------------------------------------------------------

/// `piece` lies at `at` in `bytes`, which are no more than a transaction may have.
spec fn lies(bytes: Seq<u8>, at: int, piece: Seq<u8>) -> bool {
    &&& bytes.len() <= MAX_TRANSACTION_BYTES
    &&& 0 <= at
    &&& at + piece.len() <= bytes.len()
    &&& bytes.subrange(at, at + piece.len()) == piece
}

proof fn lemma_lies_apart(bytes: Seq<u8>, at: int, first: Seq<u8>, second: Seq<u8>)
    requires
        lies(bytes, at, first + second),
    ensures
        lies(bytes, at, first),
        lies(bytes, at + first.len(), second),
{
    let both = first + second;
    assert(bytes.subrange(at, at + first.len()) =~= both.subrange(0, first.len() as int));
    assert(both.subrange(0, first.len() as int) =~= first);
    assert(bytes.subrange(at + first.len(), at + first.len() + second.len()) =~= both.subrange(
        first.len() as int,
        both.len() as int,
    ));
    assert(both.subrange(first.len() as int, both.len() as int) =~= second);
}

proof fn lemma_reads_count(bytes: Seq<u8>, at: int, value: nat, max: nat)
    requires
        lies(bytes, at, parser::compact_size_bytes(value)),
        value <= max <= u64::MAX,
    ensures
        parser::compact_size(bytes, Ok(at), max) == Ok::<(nat, int), TransactionParseError>(
            (value, at + parser::compact_size_bytes(value).len()),
        ),
{
    let number = parser::compact_size_bytes(value);
    let before = bytes.take(at);
    let after = bytes.skip(at + number.len());
    assert(bytes =~= before + number + after);
    parser::law_compact_size_round_trip(before, value as u64, after, max);
}

proof fn lemma_skips_string(bytes: Seq<u8>, at: int, string: Seq<u8>)
    requires
        lies(bytes, at, string_bytes(string)),
    ensures
        parser::skip_string(bytes, Ok(at)) == Ok::<int, TransactionParseError>(
            at + string_bytes(string).len(),
        ),
{
    lemma_lies_apart(bytes, at, parser::compact_size_bytes(string.len()), string);
    lemma_reads_count(bytes, at, string.len(), MAX_TRANSACTION_BYTES as nat);
}

proof fn lemma_skips_inputs(bytes: Seq<u8>, at: int, inputs: Seq<FullInput>)
    requires
        lies(bytes, at, inputs_bytes(inputs).flatten()),
        transparent_fits(inputs, Seq::empty()),
    ensures
        parser::skip_inputs(bytes, Ok(at), inputs.len()) == Ok::<int, TransactionParseError>(
            at + inputs_bytes(inputs).flatten().len(),
        ),
    decreases inputs.len(),
{
    if inputs.len() > 0 {
        let input = inputs[0];
        let rest = inputs.drop_first();
        let first = input_bytes(input);
        assert(inputs_bytes(inputs).drop_first() =~= inputs_bytes(rest));
        assert(inputs_bytes(inputs).first() == first);
        lemma_lies_apart(bytes, at, first, inputs_bytes(rest).flatten());
        lemma_lies_apart(
            bytes,
            at,
            input.outpoint,
            string_bytes(input.script) + input.sequence,
        );
        lemma_lies_apart(bytes, at + 36, string_bytes(input.script), input.sequence);
        lemma_skips_string(bytes, at + 36, input.script);
        assert(parser::skip_input(bytes, Ok(at)) == Ok::<int, TransactionParseError>(
            at + first.len(),
        ));
        assert(transparent_fits(rest, Seq::empty())) by {
            assert forall|i: int| 0 <= i < rest.len() implies (#[trigger] rest[i]).outpoint.len()
                == 36 && rest[i].sequence.len() == 4 by {
                assert(rest[i] == inputs[i + 1]);
            }
        }
        lemma_skips_inputs(bytes, at + first.len(), rest);
    }
}

proof fn lemma_skips_outputs(bytes: Seq<u8>, at: int, outputs: Seq<FullOutput>)
    requires
        lies(bytes, at, outputs_bytes(outputs).flatten()),
        transparent_fits(Seq::empty(), outputs),
    ensures
        parser::skip_outputs(bytes, Ok(at), outputs.len()) == Ok::<int, TransactionParseError>(
            at + outputs_bytes(outputs).flatten().len(),
        ),
    decreases outputs.len(),
{
    if outputs.len() > 0 {
        let output = outputs[0];
        let rest = outputs.drop_first();
        let first = output_bytes(output);
        assert(outputs_bytes(outputs).drop_first() =~= outputs_bytes(rest));
        assert(outputs_bytes(outputs).first() == first);
        lemma_lies_apart(bytes, at, first, outputs_bytes(rest).flatten());
        lemma_lies_apart(bytes, at, output.value, string_bytes(output.script));
        lemma_skips_string(bytes, at + 8, output.script);
        assert(parser::skip_output(bytes, Ok(at)) == Ok::<int, TransactionParseError>(
            at + first.len(),
        ));
        assert(transparent_fits(Seq::empty(), rest)) by {
            assert forall|i: int| 0 <= i < rest.len() implies (#[trigger] rest[i]).value.len()
                == 8 by {
                assert(rest[i] == outputs[i + 1]);
            }
        }
        lemma_skips_outputs(bytes, at + first.len(), rest);
    }
}

/// A step that failed is not recovered from.
pub proof fn lemma_failed_step(bytes: Seq<u8>, error: TransactionParseError, count: nat)
    ensures
        parser::skip_inputs(bytes, Err(error), count) == Err::<int, TransactionParseError>(error),
        parser::skip_outputs(bytes, Err(error), count) == Err::<int, TransactionParseError>(error),
    decreases count,
{
    if count > 0 {
        lemma_failed_step(bytes, error, (count - 1) as nat);
    }
}

proof fn lemma_skips_transparent(
    bytes: Seq<u8>,
    at: int,
    inputs: Seq<FullInput>,
    outputs: Seq<FullOutput>,
)
    requires
        lies(bytes, at, transparent_bytes(inputs, outputs)),
        transparent_fits(inputs, outputs),
    ensures
        parser::skip_transparent(bytes, Ok(at)) == Ok::<int, TransactionParseError>(
            at + transparent_bytes(inputs, outputs).len(),
        ),
{
    reveal(transparent_bytes);
    let first = list_bytes(inputs_bytes(inputs));
    let second = list_bytes(outputs_bytes(outputs));
    let inputs_count = parser::compact_size_bytes(inputs.len());
    let outputs_count = parser::compact_size_bytes(outputs.len());
    lemma_lies_apart(bytes, at, first, second);
    lemma_lies_apart(bytes, at, inputs_count, inputs_bytes(inputs).flatten());
    lemma_reads_count(bytes, at, inputs.len(), MAX_VECTOR_ITEMS as nat);
    lemma_skips_inputs(bytes, at + inputs_count.len(), inputs);
    let middle = at + first.len();
    lemma_lies_apart(bytes, middle, outputs_count, outputs_bytes(outputs).flatten());
    lemma_reads_count(bytes, middle, outputs.len(), MAX_VECTOR_ITEMS as nat);
    lemma_skips_outputs(bytes, middle + outputs_count.len(), outputs);
}

/// A list of items of one width is stepped over, behind its number.
proof fn lemma_skips_list(bytes: Seq<u8>, at: int, items: Seq<Seq<u8>>, width: nat)
    requires
        lies(bytes, at, list_bytes(items)),
        items.len() <= MAX_VECTOR_ITEMS,
        forall|i: int| 0 <= i < items.len() ==> (#[trigger] items[i]).len() == width,
    ensures
        ({
            let start = at + parser::compact_size_bytes(items.len()).len();
            &&& parser::item_count(bytes, Ok(at)) == Ok::<(nat, int), TransactionParseError>(
                (items.len(), start),
            )
            &&& items.flatten().len() == items.len() * width
            &&& lies(bytes, start, items.flatten())
            &&& parser::skip(bytes, Ok(start), items.len() * width) == Ok::<
                int,
                TransactionParseError,
            >(at + list_bytes(items).len())
        }),
{
    let count = parser::compact_size_bytes(items.len());
    lemma_lies_apart(bytes, at, count, items.flatten());
    lemma_reads_count(bytes, at, items.len(), MAX_VECTOR_ITEMS as nat);
    bytes::lemma_flatten_fixed_len(items, width);
}

/// Item `i` of items of one width lies where it should.
proof fn lemma_item_lies(bytes: Seq<u8>, start: int, items: Seq<Seq<u8>>, width: nat, i: int)
    requires
        lies(bytes, start, items.flatten()),
        forall|j: int| 0 <= j < items.len() ==> (#[trigger] items[j]).len() == width,
        0 <= i < items.len(),
    ensures
        lies(bytes, start + i * width, items[i]),
{
    bytes::lemma_flatten_fixed(items, width, i);
    assert(bytes.subrange(start + i * width, start + i * width + width) =~= items.flatten().subrange(
        i * width,
        i * width + width,
    ));
}

/// A part of an item that lies somewhere is the part of the bytes there.
proof fn lemma_part_lies(bytes: Seq<u8>, at: int, item: Seq<u8>, from: int, to: int)
    requires
        lies(bytes, at, item),
        0 <= from <= to <= item.len(),
    ensures
        bytes.subrange(at + from, at + to) == item.subrange(from, to),
{
    assert(bytes.subrange(at + from, at + to) =~= item.subrange(from, to));
}

proof fn lemma_skips_joinsplits(bytes: Seq<u8>, at: int, bundle: JoinSplitBundle, size: nat)
    requires
        lies(bytes, at, joinsplit_bytes(bundle)),
        joinsplits_fit(bundle, size),
    ensures
        parser::skip_joinsplits(bytes, Ok(at), size) == Ok::<int, TransactionParseError>(
            at + joinsplit_bytes(bundle).len(),
        ),
{
    reveal(joinsplit_bytes);
    let shared = if bundle.joinsplits.len() > 0 {
        bundle.key_and_signature
    } else {
        Seq::empty()
    };
    lemma_lies_apart(bytes, at, list_bytes(bundle.joinsplits), shared);
    lemma_skips_list(bytes, at, bundle.joinsplits, size);
}

proof fn lemma_spends_at(
    bytes: Seq<u8>,
    start: int,
    bundle: SaplingBundle,
    items: Seq<Seq<u8>>,
    width: nat,
    skipped: nat,
)
    requires
        lies(bytes, start, items.flatten()),
        items.len() == bundle.spends.len(),
        forall|j: int| 0 <= j < items.len() ==> (#[trigger] items[j]).len() == width,
        skipped + 32 <= width,
        forall|j: int|
            0 <= j < items.len() ==> (#[trigger] items[j]).subrange(skipped as int, (skipped + 32) as int)
                == bundle.spends[j].nullifier,
    ensures
        parser::nullifiers_at(bytes, start, items.len(), width, skipped) == compact_spends(bundle),
{
    let read = parser::nullifiers_at(bytes, start, items.len(), width, skipped);
    assert forall|i: int| 0 <= i < items.len() implies #[trigger] read[i]
        == bundle.spends[i].nullifier by {
        lemma_item_lies(bytes, start, items, width, i);
        lemma_part_lies(bytes, start + i * width, items[i], skipped as int, (skipped + 32) as int);
    }
    assert(read =~= compact_spends(bundle));
}

proof fn lemma_outputs_at(
    bytes: Seq<u8>,
    start: int,
    bundle: SaplingBundle,
    items: Seq<Seq<u8>>,
    width: nat,
)
    requires
        lies(bytes, start, items.flatten()),
        items.len() == bundle.outputs.len(),
        width >= 756,
        sapling_fits(bundle),
        forall|j: int| 0 <= j < items.len() ==> (#[trigger] items[j]).len() == width,
        forall|j: int|
            0 <= j < items.len() ==> (#[trigger] items[j]).take(756) == output_v5_bytes(
                bundle.outputs[j],
            ),
    ensures
        parser::sapling_outputs_at(bytes, start, items.len(), width) == compact_outputs(bundle),
{
    let read = parser::sapling_outputs_at(bytes, start, items.len(), width);
    assert forall|i: int| 0 <= i < items.len() implies #[trigger] read[i] == compact_output(
        bundle.outputs[i],
    ) by {
        let at = start + i * width;
        let item = items[i];
        let output = bundle.outputs[i];
        assert(output_fits(output));
        lemma_item_lies(bytes, start, items, width, i);
        lemma_part_lies(bytes, at, item, 32, 64);
        lemma_part_lies(bytes, at, item, 64, 96);
        lemma_part_lies(bytes, at, item, 96, 148);
        let front = item.take(756);
        assert(front.subrange(32, 64) =~= output.cmu);
        assert(front.subrange(64, 96) =~= output.ephemeral_key);
        assert(front.subrange(96, 148) =~= output.ciphertext.take(52));
        assert(item.subrange(32, 64) =~= front.subrange(32, 64));
        assert(item.subrange(64, 96) =~= front.subrange(64, 96));
        assert(item.subrange(96, 148) =~= front.subrange(96, 148));
    }
    assert(read =~= compact_outputs(bundle));
}

proof fn lemma_reads_sapling_v4(
    bytes: Seq<u8>,
    at: int,
    bundle: SaplingBundle,
    joinsplits: JoinSplitBundle,
)
    requires
        lies(bytes, at, sapling_v4_bytes(bundle, joinsplits)),
        sapling_fits(bundle),
        joinsplits_fit(joinsplits, GROTH16_JOINSPLIT_BYTES as nat),
    ensures
        parser::sapling_v4(bytes, Ok(at)) == Ok::<SaplingPart, TransactionParseError>(
            SaplingPart {
                spends: compact_spends(bundle),
                outputs: compact_outputs(bundle),
                end: at + sapling_v4_bytes(bundle, joinsplits).len(),
            },
        ),
{
    reveal(sapling_v4_bytes);
    let spends = spends_v4(bundle);
    let outputs = outputs_v4(bundle);
    let binding = if has_sapling(bundle) {
        bundle.binding_signature
    } else {
        Seq::empty()
    };
    let behind_outputs = joinsplit_bytes(joinsplits) + binding;
    let outputs_at = at + list_bytes(spends).len();
    let joinsplits_at = outputs_at + list_bytes(outputs).len();
    assert forall|i: int| 0 <= i < spends.len() implies (#[trigger] spends[i]).len() == 384
        && spends[i].subrange(64, 96) == bundle.spends[i].nullifier by {
        assert(spend_fits(bundle.spends[i]));
        assert(spends[i].subrange(64, 96) =~= bundle.spends[i].nullifier);
    }
    assert forall|i: int| 0 <= i < outputs.len() implies (#[trigger] outputs[i]).len() == 948
        && outputs[i].take(756) == output_v5_bytes(bundle.outputs[i]) by {
        assert(output_fits(bundle.outputs[i]));
        assert(outputs[i].take(756) =~= output_v5_bytes(bundle.outputs[i]));
    }
    lemma_lies_apart(bytes, at, list_bytes(spends), list_bytes(outputs) + behind_outputs);
    lemma_lies_apart(bytes, outputs_at, list_bytes(outputs), behind_outputs);
    lemma_lies_apart(bytes, joinsplits_at, joinsplit_bytes(joinsplits), binding);
    lemma_skips_list(bytes, at, spends, 384);
    lemma_skips_list(bytes, outputs_at, outputs, 948);
    lemma_skips_joinsplits(bytes, joinsplits_at, joinsplits, GROTH16_JOINSPLIT_BYTES as nat);
    lemma_spends_at(
        bytes,
        at + parser::compact_size_bytes(spends.len()).len(),
        bundle,
        spends,
        384,
        64,
    );
    lemma_outputs_at(
        bytes,
        outputs_at + parser::compact_size_bytes(outputs.len()).len(),
        bundle,
        outputs,
        948,
    );
}

proof fn lemma_proofs_len(bundle: SaplingBundle)
    requires
        sapling_fits(bundle),
    ensures
        Seq::new(bundle.spends.len(), |i: int| bundle.spends[i].proof).flatten().len()
            == bundle.spends.len() * 192,
        Seq::new(bundle.spends.len(), |i: int| bundle.spends[i].signature).flatten().len()
            == bundle.spends.len() * 64,
        Seq::new(bundle.outputs.len(), |i: int| bundle.outputs[i].proof).flatten().len()
            == bundle.outputs.len() * 192,
{
    let proofs = Seq::new(bundle.spends.len(), |i: int| bundle.spends[i].proof);
    let signatures = Seq::new(bundle.spends.len(), |i: int| bundle.spends[i].signature);
    let output_proofs = Seq::new(bundle.outputs.len(), |i: int| bundle.outputs[i].proof);
    assert forall|i: int| 0 <= i < proofs.len() implies (#[trigger] proofs[i]).len() == 192 by {
        assert(spend_fits(bundle.spends[i]));
    }
    assert forall|i: int| 0 <= i < signatures.len() implies (#[trigger] signatures[i]).len()
        == 64 by {
        assert(spend_fits(bundle.spends[i]));
    }
    assert forall|i: int| 0 <= i < output_proofs.len() implies (#[trigger] output_proofs[i]).len()
        == 192 by {
        assert(output_fits(bundle.outputs[i]));
    }
    bytes::lemma_flatten_fixed_len(proofs, 192);
    bytes::lemma_flatten_fixed_len(signatures, 64);
    bytes::lemma_flatten_fixed_len(output_proofs, 192);
}

proof fn lemma_skips_sapling_proofs(bytes: Seq<u8>, at: int, bundle: SaplingBundle)
    requires
        sapling_fits(bundle),
        has_sapling(bundle),
        lies(
            bytes,
            at,
            bundle.balance + (if bundle.spends.len() > 0 {
                bundle.shared_anchor
            } else {
                Seq::empty()
            } + (sapling_proofs(bundle) + bundle.binding_signature)),
        ),
    ensures
        ({
            let anchor: int = if bundle.spends.len() > 0 {
                32
            } else {
                0
            };
            parser::skip_sapling_proofs(
                bytes,
                Ok(at),
                bundle.spends.len(),
                bundle.outputs.len(),
            ) == Ok::<int, TransactionParseError>(
                at + 8 + anchor + sapling_proofs(bundle).len() + 64,
            )
        }),
{
    let anchor = if bundle.spends.len() > 0 {
        bundle.shared_anchor
    } else {
        Seq::empty()
    };
    let behind_anchor = sapling_proofs(bundle) + bundle.binding_signature;
    lemma_lies_apart(bytes, at, bundle.balance, anchor + behind_anchor);
    lemma_lies_apart(bytes, at + 8, anchor, behind_anchor);
    lemma_lies_apart(
        bytes,
        at + 8 + anchor.len(),
        sapling_proofs(bundle),
        bundle.binding_signature,
    );
    lemma_proofs_len(bundle);
}

proof fn lemma_reads_sapling_v5(bytes: Seq<u8>, at: int, bundle: SaplingBundle)
    requires
        lies(bytes, at, sapling_v5_bytes(bundle)),
        sapling_fits(bundle),
    ensures
        parser::sapling_v5(bytes, Ok(at)) == Ok::<SaplingPart, TransactionParseError>(
            SaplingPart {
                spends: compact_spends(bundle),
                outputs: compact_outputs(bundle),
                end: at + sapling_v5_bytes(bundle).len(),
            },
        ),
{
    reveal(sapling_v5_bytes);
    let spends = spends_v5(bundle);
    let outputs = outputs_v5(bundle);
    let shared = if has_sapling(bundle) {
        bundle.balance + (if bundle.spends.len() > 0 {
            bundle.shared_anchor
        } else {
            Seq::empty()
        } + (sapling_proofs(bundle) + bundle.binding_signature))
    } else {
        Seq::empty()
    };
    let outputs_at = at + list_bytes(spends).len();
    let shared_at = outputs_at + list_bytes(outputs).len();
    assert forall|i: int| 0 <= i < spends.len() implies (#[trigger] spends[i]).len() == 96
        && spends[i].subrange(32, 64) == bundle.spends[i].nullifier by {
        assert(spend_fits(bundle.spends[i]));
        assert(spends[i].subrange(32, 64) =~= bundle.spends[i].nullifier);
    }
    assert forall|i: int| 0 <= i < outputs.len() implies (#[trigger] outputs[i]).len() == 756
        && outputs[i].take(756) == output_v5_bytes(bundle.outputs[i]) by {
        assert(output_fits(bundle.outputs[i]));
        assert(outputs[i].take(756) =~= output_v5_bytes(bundle.outputs[i]));
    }
    lemma_lies_apart(bytes, at, list_bytes(spends), list_bytes(outputs) + shared);
    lemma_lies_apart(bytes, outputs_at, list_bytes(outputs), shared);
    lemma_skips_list(bytes, at, spends, 96);
    lemma_skips_list(bytes, outputs_at, outputs, 756);
    if has_sapling(bundle) {
        lemma_skips_sapling_proofs(bytes, shared_at, bundle);
    }
    lemma_spends_at(
        bytes,
        at + parser::compact_size_bytes(spends.len()).len(),
        bundle,
        spends,
        96,
        32,
    );
    lemma_outputs_at(
        bytes,
        outputs_at + parser::compact_size_bytes(outputs.len()).len(),
        bundle,
        outputs,
        756,
    );
}

proof fn lemma_actions_at(bytes: Seq<u8>, start: int, bundle: ActionBundle)
    requires
        actions_fit(bundle),
        lies(bytes, start, actions_list(bundle).flatten()),
        forall|i: int|
            0 <= i < bundle.actions.len() ==> (#[trigger] actions_list(bundle)[i]).len() == 820,
    ensures
        parser::shielded_actions_at(bytes, start, bundle.actions.len()) == compact_actions(bundle),
{
    let items = actions_list(bundle);
    let read = parser::shielded_actions_at(bytes, start, items.len());
    assert forall|i: int| 0 <= i < items.len() implies #[trigger] read[i] == compact_action(
        bundle.actions[i],
    ) by {
        let at = start + i * 820;
        let item = items[i];
        let action = bundle.actions[i];
        assert(action_fits(action));
        lemma_item_lies(bytes, start, items, 820, i);
        lemma_part_lies(bytes, at, item, 32, 64);
        lemma_part_lies(bytes, at, item, 96, 128);
        lemma_part_lies(bytes, at, item, 128, 160);
        lemma_part_lies(bytes, at, item, 160, 212);
        assert(item.subrange(32, 64) =~= action.nullifier);
        assert(item.subrange(96, 128) =~= action.commitment);
        assert(item.subrange(128, 160) =~= action.ephemeral_key);
        assert(item.subrange(160, 212) =~= action.ciphertext.take(52));
    }
    assert(read =~= compact_actions(bundle));
}

proof fn lemma_reads_actions(bytes: Seq<u8>, at: int, bundle: ActionBundle)
    requires
        lies(bytes, at, action_bundle_bytes(bundle)),
        actions_fit(bundle),
    ensures
        parser::shielded_actions(bytes, Ok(at)) == Ok::<
            (Seq<ActionView>, int),
            TransactionParseError,
        >((compact_actions(bundle), at + action_bundle_bytes(bundle).len())),
{
    reveal(action_bundle_bytes);
    let items = actions_list(bundle);
    let head = bundle.flags + bundle.balance + bundle.anchor;
    let signatures = Seq::new(bundle.actions.len(), |i: int| bundle.actions[i].signature);
    let behind_proof = signatures.flatten() + bundle.binding_signature;
    let shared = if bundle.actions.len() > 0 {
        head + (string_bytes(bundle.proof) + behind_proof)
    } else {
        Seq::empty()
    };
    assert forall|i: int| 0 <= i < items.len() implies (#[trigger] items[i]).len() == 820 by {
        assert(action_fits(bundle.actions[i]));
    }
    assert forall|i: int| 0 <= i < signatures.len() implies (#[trigger] signatures[i]).len()
        == 64 by {
        assert(action_fits(bundle.actions[i]));
    }
    bytes::lemma_flatten_fixed_len(signatures, 64);
    lemma_lies_apart(bytes, at, list_bytes(items), shared);
    lemma_skips_list(bytes, at, items, 820);
    let shared_at = at + list_bytes(items).len();
    if bundle.actions.len() > 0 {
        lemma_lies_apart(bytes, shared_at, head, string_bytes(bundle.proof) + behind_proof);
        let proof_at = shared_at + 41;
        lemma_lies_apart(bytes, proof_at, string_bytes(bundle.proof), behind_proof);
        lemma_skips_string(bytes, proof_at, bundle.proof);
        let signatures_at = proof_at + string_bytes(bundle.proof).len();
        lemma_lies_apart(bytes, signatures_at, signatures.flatten(), bundle.binding_signature);
    }
    lemma_actions_at(bytes, at + parser::compact_size_bytes(items.len()).len(), bundle);
}

proof fn lemma_reads_u32(bytes: Seq<u8>, at: int, value: u32)
    requires
        lies(bytes, at, u32_bytes(value)),
    ensures
        u32_bytes(value).len() == 4,
        bytes::le_value(bytes.subrange(at, at + 4)) == value,
        parser::skip_group(bytes, Ok(at), value) == Ok::<int, TransactionParseError>(at + 4),
{
    bytes::lemma_byte_limits();
    bytes::lemma_le_round_trip(value as nat, 4);
}

proof fn lemma_reads_old_body(bytes: Seq<u8>, transaction: FullTransaction)
    requires
        is_full(transaction),
        transaction is V1 || transaction is V2 || transaction is V3,
        bytes == full_bytes(transaction),
        bytes.len() <= MAX_TRANSACTION_BYTES,
    ensures
        bytes.len() >= 4,
        parser::transaction_body(bytes, bytes::le_value(bytes.subrange(0, 4)) as u32)
            == parser::transparent_only(Ok(bytes.len() as int)),
{
    reveal(parser::transaction_body);
    assert(bytes.subrange(0, bytes.len() as int) =~= bytes);
    match transaction {
        FullTransaction::V1 { inputs, outputs, lock_time } => {
            let transparent = transparent_bytes(inputs, outputs);
            lemma_lies_apart(bytes, 0, u32_bytes(1), transparent + lock_time);
            lemma_reads_u32(bytes, 0, 1);
            lemma_lies_apart(bytes, 4, transparent, lock_time);
            lemma_skips_transparent(bytes, 4, inputs, outputs);
        },
        FullTransaction::V2 { inputs, outputs, lock_time, joinsplits } => {
            let transparent = transparent_bytes(inputs, outputs);
            let behind = lock_time + joinsplit_bytes(joinsplits);
            lemma_lies_apart(bytes, 0, u32_bytes(2), transparent + behind);
            lemma_reads_u32(bytes, 0, 2);
            lemma_lies_apart(bytes, 4, transparent, behind);
            lemma_skips_transparent(bytes, 4, inputs, outputs);
            let lock_at = (4 + transparent.len()) as int;
            lemma_lies_apart(bytes, lock_at, lock_time, joinsplit_bytes(joinsplits));
            lemma_skips_joinsplits(
                bytes,
                lock_at + 4,
                joinsplits,
                BCTV14_JOINSPLIT_BYTES as nat,
            );
        },
        FullTransaction::V3 { inputs, outputs, lock_time, expiry_height, joinsplits } => {
            let transparent = transparent_bytes(inputs, outputs);
            let times = lock_time + expiry_height;
            let behind = times + joinsplit_bytes(joinsplits);
            lemma_lies_apart(
                bytes,
                0,
                u32_bytes(0x8000_0003),
                u32_bytes(OVERWINTER_GROUP_ID) + (transparent + behind),
            );
            lemma_reads_u32(bytes, 0, 0x8000_0003);
            lemma_lies_apart(bytes, 4, u32_bytes(OVERWINTER_GROUP_ID), transparent + behind);
            lemma_reads_u32(bytes, 4, OVERWINTER_GROUP_ID);
            lemma_lies_apart(bytes, 8, transparent, behind);
            lemma_skips_transparent(bytes, 8, inputs, outputs);
            let times_at = (8 + transparent.len()) as int;
            lemma_lies_apart(bytes, times_at, times, joinsplit_bytes(joinsplits));
            lemma_skips_joinsplits(
                bytes,
                times_at + 8,
                joinsplits,
                BCTV14_JOINSPLIT_BYTES as nat,
            );
        },
        _ => {},
    }
}

#[verifier::rlimit(30)]
proof fn lemma_reads_v4(bytes: Seq<u8>, transaction: FullTransaction)
    requires
        is_full(transaction),
        transaction is V4,
        bytes == full_bytes(transaction),
        bytes.len() <= MAX_TRANSACTION_BYTES,
    ensures
        bytes.len() >= 4,
        bytes::le_value(bytes.subrange(0, 4)) == 0x8000_0004,
        ({
            let compact = compact_of(transaction, Seq::empty(), 0);
            parser::body_v4(bytes, Ok(4)) == Ok::<ShieldedPart, TransactionParseError>(
                ShieldedPart {
                    sapling_spends: compact.sapling_spends,
                    sapling_outputs: compact.sapling_outputs,
                    orchard_actions: Seq::empty(),
                    ironwood_actions: Seq::empty(),
                    end: bytes.len() as int,
                },
            )
        }),
{
    reveal(parser::body_v4);
    assert(bytes.subrange(0, bytes.len() as int) =~= bytes);
    if let FullTransaction::V4 {
        inputs,
        outputs,
        lock_time,
        expiry_height,
        sapling,
        joinsplits,
    } = transaction {
        let transparent = transparent_bytes(inputs, outputs);
        let times = lock_time + expiry_height + sapling.balance;
        let behind = times + sapling_v4_bytes(sapling, joinsplits);
        lemma_lies_apart(
            bytes,
            0,
            u32_bytes(0x8000_0004),
            u32_bytes(SAPLING_GROUP_ID) + (transparent + behind),
        );
        lemma_reads_u32(bytes, 0, 0x8000_0004);
        lemma_lies_apart(bytes, 4, u32_bytes(SAPLING_GROUP_ID), transparent + behind);
        lemma_reads_u32(bytes, 4, SAPLING_GROUP_ID);
        lemma_lies_apart(bytes, 8, transparent, behind);
        lemma_skips_transparent(bytes, 8, inputs, outputs);
        let times_at = (8 + transparent.len()) as int;
        lemma_lies_apart(bytes, times_at, times, sapling_v4_bytes(sapling, joinsplits));
        lemma_reads_sapling_v4(bytes, times_at + 16, sapling, joinsplits);
    }
}

/// Where the Sapling part of a transaction of version 5 or 6 begins, and what lies there.
proof fn lemma_reads_prefix(
    bytes: Seq<u8>,
    header: u32,
    group: u32,
    ids: Seq<u8>,
    inputs: Seq<FullInput>,
    outputs: Seq<FullOutput>,
    behind: Seq<u8>,
)
    requires
        bytes == u32_bytes(header) + (u32_bytes(group) + (ids + (transparent_bytes(inputs, outputs)
            + behind))),
        bytes.len() <= MAX_TRANSACTION_BYTES,
        ids.len() == 12,
        transparent_fits(inputs, outputs),
    ensures
        bytes.len() >= 4,
        bytes::le_value(bytes.subrange(0, 4)) == header,
        ({
            let at = (20 + transparent_bytes(inputs, outputs).len()) as int;
            &&& parser::skip_v5_prefix(bytes, Ok(4), group) == Ok::<int, TransactionParseError>(at)
            &&& lies(bytes, at, behind)
            &&& at + behind.len() == bytes.len()
        }),
{
    let transparent = transparent_bytes(inputs, outputs);
    assert(bytes.subrange(0, bytes.len() as int) =~= bytes);
    lemma_lies_apart(
        bytes,
        0,
        u32_bytes(header),
        u32_bytes(group) + (ids + (transparent + behind)),
    );
    lemma_reads_u32(bytes, 0, header);
    lemma_lies_apart(bytes, 4, u32_bytes(group), ids + (transparent + behind));
    lemma_reads_u32(bytes, 4, group);
    lemma_lies_apart(bytes, 8, ids, transparent + behind);
    lemma_lies_apart(bytes, 20, transparent, behind);
    lemma_skips_transparent(bytes, 20, inputs, outputs);
}

proof fn lemma_reads_v5(bytes: Seq<u8>, transaction: FullTransaction)
    requires
        is_full(transaction),
        transaction is V5,
        bytes == full_bytes(transaction),
        bytes.len() <= MAX_TRANSACTION_BYTES,
    ensures
        bytes.len() >= 4,
        bytes::le_value(bytes.subrange(0, 4)) == 0x8000_0005,
        ({
            let compact = compact_of(transaction, Seq::empty(), 0);
            parser::body_v5(bytes, Ok(4)) == Ok::<ShieldedPart, TransactionParseError>(
                ShieldedPart {
                    sapling_spends: compact.sapling_spends,
                    sapling_outputs: compact.sapling_outputs,
                    orchard_actions: compact.orchard_actions,
                    ironwood_actions: Seq::empty(),
                    end: bytes.len() as int,
                },
            )
        }),
{
    reveal(parser::body_v5);
    if let FullTransaction::V5 {
        branch_id,
        lock_time,
        expiry_height,
        inputs,
        outputs,
        sapling,
        orchard,
    } = transaction {
        let behind = sapling_v5_bytes(sapling) + action_bundle_bytes(orchard);
        lemma_reads_prefix(
            bytes,
            0x8000_0005,
            V5_GROUP_ID,
            branch_id + lock_time + expiry_height,
            inputs,
            outputs,
            behind,
        );
        let at = (20 + transparent_bytes(inputs, outputs).len()) as int;
        lemma_lies_apart(bytes, at, sapling_v5_bytes(sapling), action_bundle_bytes(orchard));
        lemma_reads_sapling_v5(bytes, at, sapling);
        lemma_reads_actions(bytes, at + sapling_v5_bytes(sapling).len(), orchard);
    }
}

proof fn lemma_reads_v6(bytes: Seq<u8>, transaction: FullTransaction)
    requires
        is_full(transaction),
        transaction is V6,
        bytes == full_bytes(transaction),
        bytes.len() <= MAX_TRANSACTION_BYTES,
    ensures
        bytes.len() >= 4,
        bytes::le_value(bytes.subrange(0, 4)) == 0x8000_0006,
        ({
            let compact = compact_of(transaction, Seq::empty(), 0);
            parser::body_v6(bytes, Ok(4)) == Ok::<ShieldedPart, TransactionParseError>(
                ShieldedPart {
                    sapling_spends: compact.sapling_spends,
                    sapling_outputs: compact.sapling_outputs,
                    orchard_actions: compact.orchard_actions,
                    ironwood_actions: compact.ironwood_actions,
                    end: bytes.len() as int,
                },
            )
        }),
{
    reveal(parser::body_v6);
    if let FullTransaction::V6 {
        branch_id,
        lock_time,
        expiry_height,
        inputs,
        outputs,
        sapling,
        orchard,
        ironwood,
    } = transaction {
        let actions = action_bundle_bytes(orchard) + action_bundle_bytes(ironwood);
        let behind = sapling_v5_bytes(sapling) + actions;
        lemma_reads_prefix(
            bytes,
            0x8000_0006,
            V6_GROUP_ID,
            branch_id + lock_time + expiry_height,
            inputs,
            outputs,
            behind,
        );
        let at = (20 + transparent_bytes(inputs, outputs).len()) as int;
        let orchard_at = at + sapling_v5_bytes(sapling).len();
        let ironwood_at = orchard_at + action_bundle_bytes(orchard).len();
        lemma_lies_apart(bytes, at, sapling_v5_bytes(sapling), actions);
        lemma_lies_apart(
            bytes,
            orchard_at,
            action_bundle_bytes(orchard),
            action_bundle_bytes(ironwood),
        );
        lemma_reads_sapling_v5(bytes, at, sapling);
        lemma_reads_actions(bytes, orchard_at, orchard);
        lemma_reads_actions(bytes, ironwood_at, ironwood);
    }
}

/// The serialization of a transaction is read back as the transaction has it, whatever its version:
/// the nullifiers of its spends, its outputs, and the actions of its Orchard bundle and of its
/// Ironwood bundle, each kind apart from the others and in the transaction's order.
pub proof fn law_selective_parse_reads_the_whole_transaction(
    transaction: FullTransaction,
    txid: Seq<u8>,
    index: u64,
)
    requires
        is_full(transaction),
        full_bytes(transaction).len() <= MAX_TRANSACTION_BYTES,
    ensures
        parser::read_transaction(full_bytes(transaction), txid, index) == Ok::<
            TransactionView,
            TransactionParseError,
        >(compact_of(transaction, txid, index)),
{
    let bytes = full_bytes(transaction);
    reveal(parser::read_transaction);
    match transaction {
        FullTransaction::V4 { .. } => {
            lemma_reads_v4(bytes, transaction);
            parser::lemma_body_versions(bytes, 0x8000_0004);
        },
        FullTransaction::V5 { .. } => {
            lemma_reads_v5(bytes, transaction);
            parser::lemma_body_versions(bytes, 0x8000_0005);
        },
        FullTransaction::V6 { .. } => {
            lemma_reads_v6(bytes, transaction);
            parser::lemma_body_versions(bytes, 0x8000_0006);
        },
        _ => {
            lemma_reads_old_body(bytes, transaction);
        },
    }
}

/// What is read of a transaction from version 5 on has item `i` of every list as the transaction
/// has it: a spend's nullifier; an output's commitment, ephemeral key and the first 52 bytes of its
/// ciphertext; and of an action of either bundle its nullifier as well.
pub proof fn law_compact_items_are_those_of_the_bundles(
    transaction: FullTransaction,
    txid: Seq<u8>,
    index: u64,
    i: int,
)
    requires
        transaction is V5 || transaction is V6,
        0 <= i,
    ensures
        ({
            let compact = compact_of(transaction, txid, index);
            let (sapling, orchard) = match transaction {
                FullTransaction::V5 { sapling, orchard, .. } => (sapling, orchard),
                FullTransaction::V6 { sapling, orchard, .. } => (sapling, orchard),
                _ => arbitrary(),
            };
            &&& compact.index == index
            &&& compact.txid == txid
            &&& compact.sapling_spends.len() == sapling.spends.len()
            &&& compact.sapling_outputs.len() == sapling.outputs.len()
            &&& compact.orchard_actions.len() == orchard.actions.len()
            &&& transaction is V5 ==> compact.ironwood_actions.len() == 0
            &&& i < sapling.spends.len() ==> compact.sapling_spends[i]
                == sapling.spends[i].nullifier
            &&& i < sapling.outputs.len() ==> {
                &&& compact.sapling_outputs[i].cmu == sapling.outputs[i].cmu
                &&& compact.sapling_outputs[i].ephemeral_key == sapling.outputs[i].ephemeral_key
                &&& compact.sapling_outputs[i].ciphertext == sapling.outputs[i].ciphertext.take(52)
            }
            &&& i < orchard.actions.len() ==> {
                &&& compact.orchard_actions[i].nullifier == orchard.actions[i].nullifier
                &&& compact.orchard_actions[i].commitment == orchard.actions[i].commitment
                &&& compact.orchard_actions[i].ephemeral_key == orchard.actions[i].ephemeral_key
                &&& compact.orchard_actions[i].ciphertext == orchard.actions[i].ciphertext.take(52)
            }
            &&& transaction matches FullTransaction::V6 { ironwood, .. } ==> {
                &&& compact.ironwood_actions.len() == ironwood.actions.len()
                &&& i < ironwood.actions.len() ==> {
                    let action = ironwood.actions[i];
                    &&& compact.ironwood_actions[i].nullifier == action.nullifier
                    &&& compact.ironwood_actions[i].commitment == action.commitment
                    &&& compact.ironwood_actions[i].ephemeral_key == action.ephemeral_key
                    &&& compact.ironwood_actions[i].ciphertext == action.ciphertext.take(52)
                }
            }
        }),
{
}

/// What is read of a transaction of version 4 has its spends' nullifiers and its outputs, and of an
/// older one nothing but its identifier and index.
pub proof fn law_compact_items_of_older_transactions(
    transaction: FullTransaction,
    txid: Seq<u8>,
    index: u64,
    i: int,
)
    requires
        !(transaction is V5),
        !(transaction is V6),
        0 <= i,
    ensures
        ({
            let compact = compact_of(transaction, txid, index);
            &&& compact.index == index
            &&& compact.txid == txid
            &&& compact.orchard_actions.len() == 0
            &&& compact.ironwood_actions.len() == 0
            &&& !(transaction is V4) ==> compact.sapling_spends.len() == 0
                && compact.sapling_outputs.len() == 0
            &&& transaction matches FullTransaction::V4 { sapling, .. } ==> {
                &&& compact.sapling_spends.len() == sapling.spends.len()
                &&& compact.sapling_outputs.len() == sapling.outputs.len()
                &&& i < sapling.spends.len() ==> compact.sapling_spends[i]
                    == sapling.spends[i].nullifier
                &&& i < sapling.outputs.len() ==> {
                    let output = sapling.outputs[i];
                    &&& compact.sapling_outputs[i].cmu == output.cmu
                    &&& compact.sapling_outputs[i].ephemeral_key == output.ephemeral_key
                    &&& compact.sapling_outputs[i].ciphertext == output.ciphertext.take(52)
                }
            }
        }),
{
}

} // verus!
