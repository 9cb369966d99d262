//! Bytes that are read as a transaction are the serialization of one.
use vstd::prelude::*;

use crate::bytes;
use crate::encoding;
use crate::encoding::{
    ActionBundle, FullAction, FullInput, FullOutput, FullSaplingOutput, FullSpend,
    FullTransaction, JoinSplitBundle, SaplingBundle,
};
use crate::parser;
use crate::parser::{
    TransactionParseError, TransactionView, BCTV14_JOINSPLIT_BYTES, GROTH16_JOINSPLIT_BYTES,
    MAX_TRANSACTION_BYTES, MAX_VECTOR_ITEMS, OVERWINTER_GROUP_ID, SAPLING_GROUP_ID, V5_GROUP_ID,
    V6_GROUP_ID,
};

verus! {

/// A field that no byte stands for.
spec fn absent(len: nat) -> Seq<u8> {
    Seq::new(len, |i: int| 0u8)
}

/// `piece` is what lies between two places.
spec fn spans(bytes: Seq<u8>, from: int, to: int, piece: Seq<u8>) -> bool {
    &&& 0 <= from <= to <= bytes.len()
    &&& bytes.subrange(from, to) == piece
}

proof fn lemma_spans_join(
    bytes: Seq<u8>,
    from: int,
    middle: int,
    to: int,
    first: Seq<u8>,
    second: Seq<u8>,
)
    requires
        spans(bytes, from, middle, first),
        spans(bytes, middle, to, second),
    ensures
        spans(bytes, from, to, first + second),
{
    assert(bytes.subrange(from, to) =~= first + second);
}

proof fn lemma_count_written(bytes: Seq<u8>, at: int, max: nat)
    requires
        0 <= at,
        parser::compact_size(bytes, Ok(at), max) is Ok,
    ensures
        ({
            let (value, end) = parser::compact_size(bytes, Ok(at), max)->Ok_0;
            &&& value <= max
            &&& spans(bytes, at, end, parser::compact_size_bytes(value))
        }),
{
    let (value, end) = parser::compact_size(bytes, Ok(at), max)->Ok_0;
    let width = parser::compact_size_width(bytes[at]);
    bytes::lemma_byte_limits();
    if width > 0 {
        bytes::lemma_le_value_round_trip(bytes.subrange(at + 1, end));
        assert(bytes.subrange(at, end) =~= seq![bytes[at]] + bytes.subrange(at + 1, end));
    } else {
        assert(bytes.subrange(at, end) =~= seq![bytes[at]]);
    }
}

proof fn whole_string(bytes: Seq<u8>, at: int) -> (string: Seq<u8>)
    requires
        0 <= at,
        parser::skip_string(bytes, Ok(at)) is Ok,
    ensures
        spans(
            bytes,
            at,
            parser::skip_string(bytes, Ok(at))->Ok_0,
            encoding::string_bytes(string),
        ),
{
    let max = MAX_TRANSACTION_BYTES as nat;
    let end = parser::skip_string(bytes, Ok(at))->Ok_0;
    let (len, start) = parser::compact_size(bytes, Ok(at), max)->Ok_0;
    let string = bytes.subrange(start, end);
    lemma_count_written(bytes, at, max);
    lemma_spans_join(bytes, at, start, end, parser::compact_size_bytes(len), string);
    string
}

proof fn lemma_flatten_first(first: Seq<u8>, rest: Seq<Seq<u8>>)
    ensures
        (seq![first] + rest).flatten() == first + rest.flatten(),
{
    assert((seq![first] + rest).drop_first() =~= rest);
}

proof fn whole_inputs(bytes: Seq<u8>, at: int, count: nat) -> (inputs: Seq<FullInput>)
    requires
        0 <= at <= bytes.len(),
        parser::skip_inputs(bytes, Ok(at), count) is Ok,
    ensures
        inputs.len() == count,
        forall|i: int|
            0 <= i < inputs.len() ==> (#[trigger] inputs[i]).outpoint.len() == 36
                && inputs[i].sequence.len() == 4,
        spans(
            bytes,
            at,
            parser::skip_inputs(bytes, Ok(at), count)->Ok_0,
            encoding::inputs_bytes(inputs).flatten(),
        ),
    decreases count,
{
    if count == 0 {
        let inputs: Seq<FullInput> = Seq::empty();
        assert(encoding::inputs_bytes(inputs) =~= Seq::empty());
        assert(bytes.subrange(at, at) =~= Seq::empty());
        inputs
    } else {
        let next = parser::skip_input(bytes, Ok(at));
        if let Err(error) = next {
            encoding::lemma_failed_step(bytes, error, (count - 1) as nat);
        }
        let script_end = parser::skip_string(bytes, Ok(at + 36))->Ok_0;
        let script = whole_string(bytes, at + 36);
        let input = FullInput {
            outpoint: bytes.subrange(at, at + 36),
            script,
            sequence: bytes.subrange(script_end, script_end + 4),
        };
        let end = next->Ok_0;
        lemma_spans_join(
            bytes,
            at + 36,
            script_end,
            end,
            encoding::string_bytes(script),
            input.sequence,
        );
        lemma_spans_join(
            bytes,
            at,
            at + 36,
            end,
            input.outpoint,
            encoding::string_bytes(script) + input.sequence,
        );
        let rest = whole_inputs(bytes, end, (count - 1) as nat);
        let inputs = seq![input] + rest;
        assert(encoding::inputs_bytes(inputs) =~= seq![encoding::input_bytes(input)]
            + encoding::inputs_bytes(rest));
        lemma_flatten_first(encoding::input_bytes(input), encoding::inputs_bytes(rest));
        lemma_spans_join(
            bytes,
            at,
            end,
            parser::skip_inputs(bytes, Ok(at), count)->Ok_0,
            encoding::input_bytes(input),
            encoding::inputs_bytes(rest).flatten(),
        );
        inputs
    }
}

proof fn whole_outputs(bytes: Seq<u8>, at: int, count: nat) -> (outputs: Seq<FullOutput>)
    requires
        0 <= at <= bytes.len(),
        parser::skip_outputs(bytes, Ok(at), count) is Ok,
    ensures
        outputs.len() == count,
        forall|i: int| 0 <= i < outputs.len() ==> (#[trigger] outputs[i]).value.len() == 8,
        spans(
            bytes,
            at,
            parser::skip_outputs(bytes, Ok(at), count)->Ok_0,
            encoding::outputs_bytes(outputs).flatten(),
        ),
    decreases count,
{
    if count == 0 {
        let outputs: Seq<FullOutput> = Seq::empty();
        assert(encoding::outputs_bytes(outputs) =~= Seq::empty());
        assert(bytes.subrange(at, at) =~= Seq::empty());
        outputs
    } else {
        let next = parser::skip_output(bytes, Ok(at));
        if let Err(error) = next {
            encoding::lemma_failed_step(bytes, error, (count - 1) as nat);
        }
        let script = whole_string(bytes, at + 8);
        let output = FullOutput { value: bytes.subrange(at, at + 8), script };
        let end = next->Ok_0;
        lemma_spans_join(
            bytes,
            at,
            at + 8,
            end,
            output.value,
            encoding::string_bytes(script),
        );
        let rest = whole_outputs(bytes, end, (count - 1) as nat);
        let outputs = seq![output] + rest;
        assert(encoding::outputs_bytes(outputs) =~= seq![encoding::output_bytes(output)]
            + encoding::outputs_bytes(rest));
        lemma_flatten_first(encoding::output_bytes(output), encoding::outputs_bytes(rest));
        lemma_spans_join(
            bytes,
            at,
            end,
            parser::skip_outputs(bytes, Ok(at), count)->Ok_0,
            encoding::output_bytes(output),
            encoding::outputs_bytes(rest).flatten(),
        );
        outputs
    }
}

proof fn whole_transparent(bytes: Seq<u8>, at: int) -> (parts: (Seq<FullInput>, Seq<FullOutput>))
    requires
        0 <= at <= bytes.len(),
        parser::skip_transparent(bytes, Ok(at)) is Ok,
    ensures
        encoding::transparent_fits(parts.0, parts.1),
        spans(
            bytes,
            at,
            parser::skip_transparent(bytes, Ok(at))->Ok_0,
            encoding::transparent_bytes(parts.0, parts.1),
        ),
{
    reveal(encoding::transparent_bytes);
    let max = MAX_VECTOR_ITEMS as nat;
    let (input_count, inputs_at) = parser::item_count(bytes, Ok(at))->Ok_0;
    lemma_count_written(bytes, at, max);
    let inputs = whole_inputs(bytes, inputs_at, input_count);
    let middle = parser::skip_inputs(bytes, Ok(inputs_at), input_count)->Ok_0;
    lemma_spans_join(
        bytes,
        at,
        inputs_at,
        middle,
        parser::compact_size_bytes(input_count),
        encoding::inputs_bytes(inputs).flatten(),
    );
    let (output_count, outputs_at) = parser::item_count(bytes, Ok(middle))->Ok_0;
    lemma_count_written(bytes, middle, max);
    let outputs = whole_outputs(bytes, outputs_at, output_count);
    let end = parser::skip_outputs(bytes, Ok(outputs_at), output_count)->Ok_0;
    lemma_spans_join(
        bytes,
        middle,
        outputs_at,
        end,
        parser::compact_size_bytes(output_count),
        encoding::outputs_bytes(outputs).flatten(),
    );
    lemma_spans_join(
        bytes,
        at,
        middle,
        end,
        encoding::list_bytes(encoding::inputs_bytes(inputs)),
        encoding::list_bytes(encoding::outputs_bytes(outputs)),
    );
    (inputs, outputs)
}

/// Item `i` of items of one width.
spec fn item_at(bytes: Seq<u8>, start: int, width: nat, i: int) -> Seq<u8> {
    bytes.subrange(start + width * i, start + width * i + width)
}

spec fn items_at(bytes: Seq<u8>, start: int, width: nat, count: nat) -> Seq<Seq<u8>> {
    Seq::new(count, |i: int| item_at(bytes, start, width, i))
}

proof fn lemma_items_span(bytes: Seq<u8>, start: int, width: nat, count: nat)
    requires
        0 <= start,
        start + count * width <= bytes.len(),
    ensures
        spans(
            bytes,
            start,
            start + count * width,
            items_at(bytes, start, width, count).flatten(),
        ),
        forall|i: int|
            0 <= i < count ==> (#[trigger] items_at(bytes, start, width, count)[i]).len() == width,
{
    assert(width * count == count * width) by (nonlinear_arith);
    bytes::lemma_flatten_pieces(bytes, start, width, count);
    assert(items_at(bytes, start, width, count) =~= Seq::new(
        count,
        |i: int| bytes.subrange(start + width * i, start + width * i + width),
    ));
    assert forall|i: int| 0 <= i < count implies (#[trigger] items_at(
        bytes,
        start,
        width,
        count,
    )[i]).len() == width by {
        assert(0 <= width * i && width * i + width <= count * width) by (nonlinear_arith)
            requires
                0 <= i < count,
        ;
    }
}

proof fn lemma_list_span(bytes: Seq<u8>, at: int, width: nat)
    requires
        0 <= at,
        parser::item_count(bytes, Ok(at)) matches Ok((count, start)) && start + count * width
            <= bytes.len(),
    ensures
        ({
            let (count, start) = parser::item_count(bytes, Ok(at))->Ok_0;
            let items = items_at(bytes, start, width, count);
            &&& count <= MAX_VECTOR_ITEMS
            &&& spans(bytes, at, start + count * width, encoding::list_bytes(items))
            &&& forall|i: int| 0 <= i < count ==> (#[trigger] items[i]).len() == width
        }),
{
    let (count, start) = parser::item_count(bytes, Ok(at))->Ok_0;
    lemma_count_written(bytes, at, MAX_VECTOR_ITEMS as nat);
    lemma_items_span(bytes, start, width, count);
    lemma_spans_join(
        bytes,
        at,
        start,
        start + count * width,
        parser::compact_size_bytes(count),
        items_at(bytes, start, width, count).flatten(),
    );
}

proof fn whole_joinsplits(bytes: Seq<u8>, at: int, size: nat) -> (bundle: JoinSplitBundle)
    requires
        0 <= at <= bytes.len(),
        parser::skip_joinsplits(bytes, Ok(at), size) is Ok,
    ensures
        encoding::joinsplits_fit(bundle, size),
        spans(
            bytes,
            at,
            parser::skip_joinsplits(bytes, Ok(at), size)->Ok_0,
            encoding::joinsplit_bytes(bundle),
        ),
{
    reveal(encoding::joinsplit_bytes);
    let (count, start) = parser::item_count(bytes, Ok(at))->Ok_0;
    let items_end = start + count * size;
    let end = parser::skip_joinsplits(bytes, Ok(at), size)->Ok_0;
    lemma_list_span(bytes, at, size);
    let shared = bytes.subrange(items_end, end);
    let bundle = JoinSplitBundle {
        joinsplits: items_at(bytes, start, size, count),
        key_and_signature: if count > 0 {
            shared
        } else {
            absent(96)
        },
    };
    assert(count == 0 ==> shared =~= Seq::empty());
    lemma_spans_join(
        bytes,
        at,
        items_end,
        end,
        encoding::list_bytes(bundle.joinsplits),
        shared,
    );
    bundle
}

spec fn spend_v4_of(item: Seq<u8>) -> FullSpend {
    FullSpend {
        value_commitment: item.subrange(0, 32),
        anchor: item.subrange(32, 64),
        nullifier: item.subrange(64, 96),
        key: item.subrange(96, 128),
        proof: item.subrange(128, 320),
        signature: item.subrange(320, 384),
    }
}

spec fn spend_v5_of(item: Seq<u8>, zk_proof: Seq<u8>, signature: Seq<u8>) -> FullSpend {
    FullSpend {
        value_commitment: item.subrange(0, 32),
        anchor: absent(32),
        nullifier: item.subrange(32, 64),
        key: item.subrange(64, 96),
        proof: zk_proof,
        signature,
    }
}

spec fn output_of(item: Seq<u8>, zk_proof: Seq<u8>) -> FullSaplingOutput {
    FullSaplingOutput {
        value_commitment: item.subrange(0, 32),
        cmu: item.subrange(32, 64),
        ephemeral_key: item.subrange(64, 96),
        ciphertext: item.subrange(96, 676),
        out_ciphertext: item.subrange(676, 756),
        proof: zk_proof,
    }
}

proof fn whole_sapling_v4(bytes: Seq<u8>, at: int, balance: Seq<u8>) -> (parts: (
    SaplingBundle,
    JoinSplitBundle,
))
    requires
        0 <= at <= bytes.len(),
        balance.len() == 8,
        parser::sapling_v4(bytes, Ok(at)) is Ok,
    ensures
        encoding::sapling_fits(parts.0),
        parts.0.balance == balance,
        encoding::joinsplits_fit(parts.1, GROTH16_JOINSPLIT_BYTES as nat),
        spans(
            bytes,
            at,
            parser::sapling_v4(bytes, Ok(at))->Ok_0.end,
            encoding::sapling_v4_bytes(parts.0, parts.1),
        ),
{
    reveal(encoding::sapling_v4_bytes);
    let size = GROTH16_JOINSPLIT_BYTES as nat;
    let end = parser::sapling_v4(bytes, Ok(at))->Ok_0.end;
    let (spend_count, spends_at) = parser::item_count(bytes, Ok(at))->Ok_0;
    let spends_end = spends_at + spend_count * 384;
    lemma_list_span(bytes, at, 384);
    let (output_count, outputs_at) = parser::item_count(bytes, Ok(spends_end))->Ok_0;
    let outputs_end = outputs_at + output_count * 948;
    lemma_list_span(bytes, spends_end, 948);
    let joinsplits = whole_joinsplits(bytes, outputs_end, size);
    let joinsplits_end = parser::skip_joinsplits(bytes, Ok(outputs_end), size)->Ok_0;
    let binding = bytes.subrange(joinsplits_end, end);
    let spends = items_at(bytes, spends_at, 384, spend_count);
    let outputs = items_at(bytes, outputs_at, 948, output_count);
    let bundle = SaplingBundle {
        spends: Seq::new(spend_count, |i: int| spend_v4_of(spends[i])),
        outputs: Seq::new(
            output_count,
            |i: int| output_of(outputs[i], outputs[i].subrange(756, 948)),
        ),
        balance,
        shared_anchor: absent(32),
        binding_signature: if spend_count > 0 || output_count > 0 {
            binding
        } else {
            absent(64)
        },
    };
    assert forall|i: int| 0 <= i < spend_count implies encoding::spend_fits(
        #[trigger] bundle.spends[i],
    ) && encoding::spend_v4_bytes(bundle.spends[i]) == spends[i] by {
        assert(spends[i].len() == 384);
        assert(encoding::spend_v4_bytes(bundle.spends[i]) =~= spends[i]);
    }
    assert forall|i: int| 0 <= i < output_count implies encoding::output_fits(
        #[trigger] bundle.outputs[i],
    ) && encoding::output_v4_bytes(bundle.outputs[i]) == outputs[i] by {
        assert(outputs[i].len() == 948);
        assert(encoding::output_v4_bytes(bundle.outputs[i]) =~= outputs[i]);
    }
    assert(encoding::spends_v4(bundle) =~= spends);
    assert(encoding::outputs_v4(bundle) =~= outputs);
    assert(!encoding::has_sapling(bundle) ==> binding =~= Seq::empty());
    lemma_spans_join(
        bytes,
        outputs_end,
        joinsplits_end,
        end,
        encoding::joinsplit_bytes(joinsplits),
        binding,
    );
    lemma_spans_join(
        bytes,
        spends_end,
        outputs_end,
        end,
        encoding::list_bytes(outputs),
        encoding::joinsplit_bytes(joinsplits) + binding,
    );
    lemma_spans_join(
        bytes,
        at,
        spends_end,
        end,
        encoding::list_bytes(spends),
        encoding::list_bytes(outputs) + (encoding::joinsplit_bytes(joinsplits) + binding),
    );
    (bundle, joinsplits)
}

/// The Sapling bundle whose spends and outputs begin at two places, and whose shared fields begin
/// at a third.
spec fn sapling_v5_of(
    bytes: Seq<u8>,
    spends_at: int,
    spend_count: nat,
    outputs_at: int,
    output_count: nat,
    shared_at: int,
) -> SaplingBundle {
    let anchor_at = shared_at + 8;
    let proofs_at = if spend_count > 0 {
        anchor_at + 32
    } else {
        anchor_at
    };
    let signatures_at = proofs_at + spend_count * 192;
    let output_proofs_at = signatures_at + spend_count * 64;
    let binding_at = output_proofs_at + output_count * 192;
    let any = spend_count > 0 || output_count > 0;
    SaplingBundle {
        spends: Seq::new(
            spend_count,
            |i: int|
                spend_v5_of(
                    item_at(bytes, spends_at, 96, i),
                    item_at(bytes, proofs_at, 192, i),
                    item_at(bytes, signatures_at, 64, i),
                ),
        ),
        outputs: Seq::new(
            output_count,
            |i: int|
                output_of(
                    item_at(bytes, outputs_at, 756, i),
                    item_at(bytes, output_proofs_at, 192, i),
                ),
        ),
        balance: if any {
            bytes.subrange(shared_at, anchor_at)
        } else {
            absent(8)
        },
        shared_anchor: if spend_count > 0 {
            bytes.subrange(anchor_at, proofs_at)
        } else {
            absent(32)
        },
        binding_signature: if any {
            bytes.subrange(binding_at, binding_at + 64)
        } else {
            absent(64)
        },
    }
}

proof fn lemma_sapling_proofs_span(
    bytes: Seq<u8>,
    spends_at: int,
    spend_count: nat,
    outputs_at: int,
    output_count: nat,
    shared_at: int,
)
    requires
        0 <= shared_at,
        spend_count > 0 || output_count > 0,
        parser::skip_sapling_proofs(bytes, Ok(shared_at), spend_count, output_count) is Ok,
    ensures
        ({
            let bundle = sapling_v5_of(
                bytes,
                spends_at,
                spend_count,
                outputs_at,
                output_count,
                shared_at,
            );
            let end = parser::skip_sapling_proofs(
                bytes,
                Ok(shared_at),
                spend_count,
                output_count,
            )->Ok_0;
            &&& bundle.balance.len() == 8
            &&& bundle.shared_anchor.len() == 32
            &&& bundle.binding_signature.len() == 64
            &&& forall|i: int|
                0 <= i < spend_count ==> (#[trigger] bundle.spends[i]).proof.len() == 192
                    && bundle.spends[i].signature.len() == 64
            &&& forall|i: int|
                0 <= i < output_count ==> (#[trigger] bundle.outputs[i]).proof.len() == 192
            &&& spans(
                bytes,
                shared_at,
                end,
                bundle.balance + (if spend_count > 0 {
                    bundle.shared_anchor
                } else {
                    Seq::empty()
                } + (encoding::sapling_proofs(bundle) + bundle.binding_signature)),
            )
        }),
{
    let bundle = sapling_v5_of(
        bytes,
        spends_at,
        spend_count,
        outputs_at,
        output_count,
        shared_at,
    );
    let anchor_at = shared_at + 8;
    let proofs_at = if spend_count > 0 {
        anchor_at + 32
    } else {
        anchor_at
    };
    let signatures_at = proofs_at + spend_count * 192;
    let output_proofs_at = signatures_at + spend_count * 64;
    let binding_at = output_proofs_at + output_count * 192;
    let end = binding_at + 64;
    let anchor = bytes.subrange(anchor_at, proofs_at);
    let proofs = items_at(bytes, proofs_at, 192, spend_count);
    let signatures = items_at(bytes, signatures_at, 64, spend_count);
    let output_proofs = items_at(bytes, output_proofs_at, 192, output_count);
    lemma_items_span(bytes, proofs_at, 192, spend_count);
    lemma_items_span(bytes, signatures_at, 64, spend_count);
    lemma_items_span(bytes, output_proofs_at, 192, output_count);
    assert forall|i: int| 0 <= i < spend_count implies (#[trigger] bundle.spends[i]).proof.len()
        == 192 && bundle.spends[i].signature.len() == 64 by {
        assert(proofs[i].len() == 192 && signatures[i].len() == 64);
    }
    assert forall|i: int| 0 <= i < output_count implies (#[trigger] bundle.outputs[i]).proof.len()
        == 192 by {
        assert(output_proofs[i].len() == 192);
    }
    assert(Seq::new(spend_count, |i: int| bundle.spends[i].proof) =~= proofs);
    assert(Seq::new(spend_count, |i: int| bundle.spends[i].signature) =~= signatures);
    assert(Seq::new(output_count, |i: int| bundle.outputs[i].proof) =~= output_proofs);
    lemma_spans_join(
        bytes,
        signatures_at,
        output_proofs_at,
        binding_at,
        signatures.flatten(),
        output_proofs.flatten(),
    );
    lemma_spans_join(
        bytes,
        proofs_at,
        signatures_at,
        binding_at,
        proofs.flatten(),
        signatures.flatten() + output_proofs.flatten(),
    );
    lemma_spans_join(
        bytes,
        proofs_at,
        binding_at,
        end,
        encoding::sapling_proofs(bundle),
        bundle.binding_signature,
    );
    let behind_anchor = encoding::sapling_proofs(bundle) + bundle.binding_signature;
    lemma_spans_join(bytes, anchor_at, proofs_at, end, anchor, behind_anchor);
    assert(spend_count == 0 ==> anchor =~= Seq::empty());
    lemma_spans_join(
        bytes,
        shared_at,
        anchor_at,
        end,
        bundle.balance,
        anchor + behind_anchor,
    );
}

proof fn whole_sapling_v5(bytes: Seq<u8>, at: int) -> (bundle: SaplingBundle)
    requires
        0 <= at <= bytes.len(),
        parser::sapling_v5(bytes, Ok(at)) is Ok,
    ensures
        encoding::sapling_fits(bundle),
        spans(
            bytes,
            at,
            parser::sapling_v5(bytes, Ok(at))->Ok_0.end,
            encoding::sapling_v5_bytes(bundle),
        ),
{
    reveal(encoding::sapling_v5_bytes);
    let end = parser::sapling_v5(bytes, Ok(at))->Ok_0.end;
    let (spend_count, spends_at) = parser::item_count(bytes, Ok(at))->Ok_0;
    let spends_end = spends_at + spend_count * 96;
    lemma_list_span(bytes, at, 96);
    let (output_count, outputs_at) = parser::item_count(bytes, Ok(spends_end))->Ok_0;
    let shared_at = outputs_at + output_count * 756;
    lemma_list_span(bytes, spends_end, 756);
    let spends = items_at(bytes, spends_at, 96, spend_count);
    let outputs = items_at(bytes, outputs_at, 756, output_count);
    let bundle = sapling_v5_of(
        bytes,
        spends_at,
        spend_count,
        outputs_at,
        output_count,
        shared_at,
    );
    let shared = bytes.subrange(shared_at, end);
    if spend_count > 0 || output_count > 0 {
        lemma_sapling_proofs_span(
            bytes,
            spends_at,
            spend_count,
            outputs_at,
            output_count,
            shared_at,
        );
    } else {
        assert(shared =~= Seq::empty());
    }
    assert forall|i: int| 0 <= i < spend_count implies encoding::spend_fits(
        #[trigger] bundle.spends[i],
    ) && encoding::spend_v5_bytes(bundle.spends[i]) == spends[i] by {
        assert(spends[i].len() == 96);
        assert(encoding::spend_v5_bytes(bundle.spends[i]) =~= spends[i]);
    }
    assert forall|i: int| 0 <= i < output_count implies encoding::output_fits(
        #[trigger] bundle.outputs[i],
    ) && encoding::output_v5_bytes(bundle.outputs[i]) == outputs[i] by {
        assert(outputs[i].len() == 756);
        assert(encoding::output_v5_bytes(bundle.outputs[i]) =~= outputs[i]);
    }
    assert(encoding::spends_v5(bundle) =~= spends);
    assert(encoding::outputs_v5(bundle) =~= outputs);
    lemma_spans_join(bytes, spends_end, shared_at, end, encoding::list_bytes(outputs), shared);
    lemma_spans_join(
        bytes,
        at,
        spends_end,
        end,
        encoding::list_bytes(spends),
        encoding::list_bytes(outputs) + shared,
    );
    bundle
}

spec fn action_of(item: Seq<u8>, signature: Seq<u8>) -> FullAction {
    FullAction {
        value_commitment: item.subrange(0, 32),
        nullifier: item.subrange(32, 64),
        key: item.subrange(64, 96),
        commitment: item.subrange(96, 128),
        ephemeral_key: item.subrange(128, 160),
        ciphertext: item.subrange(160, 740),
        out_ciphertext: item.subrange(740, 820),
        signature,
    }
}

proof fn whole_actions(bytes: Seq<u8>, at: int) -> (bundle: ActionBundle)
    requires
        0 <= at <= bytes.len(),
        parser::shielded_actions(bytes, Ok(at)) is Ok,
    ensures
        encoding::actions_fit(bundle),
        spans(
            bytes,
            at,
            parser::shielded_actions(bytes, Ok(at))->Ok_0.1,
            encoding::action_bundle_bytes(bundle),
        ),
{
    reveal(encoding::action_bundle_bytes);
    let end = parser::shielded_actions(bytes, Ok(at))->Ok_0.1;
    let (count, start) = parser::item_count(bytes, Ok(at))->Ok_0;
    let shared_at = start + count * 820;
    lemma_list_span(bytes, at, 820);
    let items = items_at(bytes, start, 820, count);
    if count == 0 {
        let bundle = ActionBundle {
            actions: Seq::empty(),
            flags: absent(1),
            balance: absent(8),
            anchor: absent(32),
            proof: Seq::empty(),
            binding_signature: absent(64),
        };
        assert(encoding::actions_list(bundle) =~= items);
        assert(encoding::action_bundle_bytes(bundle) =~= encoding::list_bytes(items));
        bundle
    } else {
        let proof_at = shared_at + 41;
        let signatures_at = parser::skip_string(bytes, Ok(proof_at))->Ok_0;
        let zk_proof = whole_string(bytes, proof_at);
        let binding_at = signatures_at + count * 64;
        let signatures = items_at(bytes, signatures_at, 64, count);
        lemma_items_span(bytes, signatures_at, 64, count);
        let bundle = ActionBundle {
            actions: Seq::new(count, |i: int| action_of(items[i], signatures[i])),
            flags: bytes.subrange(shared_at, shared_at + 1),
            balance: bytes.subrange(shared_at + 1, shared_at + 9),
            anchor: bytes.subrange(shared_at + 9, proof_at),
            proof: zk_proof,
            binding_signature: bytes.subrange(binding_at, end),
        };
        assert forall|i: int| 0 <= i < count implies encoding::action_fits(
            #[trigger] bundle.actions[i],
        ) && encoding::action_bytes(bundle.actions[i]) == items[i] by {
            assert(items[i].len() == 820 && signatures[i].len() == 64);
            assert(encoding::action_bytes(bundle.actions[i]) =~= items[i]);
        }
        assert(encoding::actions_list(bundle) =~= items);
        assert(Seq::new(count, |i: int| bundle.actions[i].signature) =~= signatures);
        let head = bundle.flags + bundle.balance + bundle.anchor;
        assert(bytes.subrange(shared_at, proof_at) =~= head);
        let behind_proof = signatures.flatten() + bundle.binding_signature;
        lemma_spans_join(
            bytes,
            signatures_at,
            binding_at,
            end,
            signatures.flatten(),
            bundle.binding_signature,
        );
        lemma_spans_join(
            bytes,
            proof_at,
            signatures_at,
            end,
            encoding::string_bytes(zk_proof),
            behind_proof,
        );
        let shared = head + (encoding::string_bytes(zk_proof) + behind_proof);
        lemma_spans_join(
            bytes,
            shared_at,
            proof_at,
            end,
            head,
            encoding::string_bytes(zk_proof) + behind_proof,
        );
        lemma_spans_join(bytes, at, shared_at, end, encoding::list_bytes(items), shared);
        bundle
    }
}

proof fn lemma_number_spans(bytes: Seq<u8>, at: int)
    requires
        0 <= at,
        at + 4 <= bytes.len(),
    ensures
        spans(
            bytes,
            at,
            at + 4,
            encoding::u32_bytes(bytes::le_value(bytes.subrange(at, at + 4)) as u32),
        ),
{
    bytes::lemma_byte_limits();
    bytes::lemma_le_value_round_trip(bytes.subrange(at, at + 4));
}

/// A transaction with all its fields whose bytes are `bytes`.
spec fn is_written(transaction: FullTransaction, bytes: Seq<u8>) -> bool {
    encoding::is_full(transaction) && encoding::full_bytes(transaction) == bytes
}

/// The JoinSplits of a transaction of version 2 or 3 begin at `at` and reach the end.
#[verifier::opaque]
spec fn joinsplits_end(bytes: Seq<u8>, at: int) -> bool {
    parser::skip_joinsplits(bytes, Ok(at), BCTV14_JOINSPLIT_BYTES as nat) matches Ok(end) && end
        >= bytes.len()
}

proof fn lemma_old_parts(bytes: Seq<u8>, header: u32) -> (lock_at: int)
    requires
        bytes.len() >= 4,
        header == 1 || header == 2 || header == 0x8000_0003,
        parser::transaction_body(bytes, header) matches Ok(part) && part.end >= bytes.len(),
    ensures
        header == 1 ==> parser::skip_transparent(bytes, Ok(4)) == Ok::<int, TransactionParseError>(
            lock_at,
        ) && lock_at + 4 == bytes.len(),
        header == 2 ==> parser::skip_transparent(bytes, Ok(4)) == Ok::<int, TransactionParseError>(
            lock_at,
        ) && lock_at + 4 <= bytes.len() && joinsplits_end(bytes, lock_at + 4),
        header == 0x8000_0003 ==> parser::skip_group(bytes, Ok(4), OVERWINTER_GROUP_ID) is Ok
            && parser::skip_transparent(bytes, Ok(8)) == Ok::<int, TransactionParseError>(lock_at)
            && lock_at + 8 <= bytes.len() && joinsplits_end(bytes, lock_at + 8),
{
    reveal(parser::transaction_body);
    reveal(joinsplits_end);
    let start: int = if header == 0x8000_0003 {
        8
    } else {
        4
    };
    parser::skip_transparent(bytes, Ok(start))->Ok_0
}

proof fn whole_last_joinsplits(bytes: Seq<u8>, at: int) -> (bundle: JoinSplitBundle)
    requires
        0 <= at <= bytes.len(),
        joinsplits_end(bytes, at),
    ensures
        encoding::joinsplits_fit(bundle, BCTV14_JOINSPLIT_BYTES as nat),
        spans(bytes, at, bytes.len() as int, encoding::joinsplit_bytes(bundle)),
{
    reveal(joinsplits_end);
    whole_joinsplits(bytes, at, BCTV14_JOINSPLIT_BYTES as nat)
}

proof fn whole_v1(bytes: Seq<u8>) -> (transaction: FullTransaction)
    requires
        bytes.len() >= 4,
        bytes::le_value(bytes.subrange(0, 4)) as u32 == 1,
        parser::transaction_body(bytes, 1) matches Ok(part) && part.end >= bytes.len(),
    ensures
        is_written(transaction, bytes),
{
    let end = bytes.len() as int;
    let lock_at = lemma_old_parts(bytes, 1);
    assert(bytes.subrange(0, end) =~= bytes);
    lemma_number_spans(bytes, 0);
    let (inputs, outputs) = whole_transparent(bytes, 4);
    let lock_time = bytes.subrange(lock_at, lock_at + 4);
    let transparent = encoding::transparent_bytes(inputs, outputs);
    lemma_spans_join(bytes, 4, lock_at, end, transparent, lock_time);
    lemma_spans_join(bytes, 0, 4, end, encoding::u32_bytes(1), transparent + lock_time);
    FullTransaction::V1 { inputs, outputs, lock_time }
}

proof fn whole_v2(bytes: Seq<u8>) -> (transaction: FullTransaction)
    requires
        bytes.len() >= 4,
        bytes::le_value(bytes.subrange(0, 4)) as u32 == 2,
        parser::transaction_body(bytes, 2) matches Ok(part) && part.end >= bytes.len(),
    ensures
        is_written(transaction, bytes),
{
    let end = bytes.len() as int;
    let lock_at = lemma_old_parts(bytes, 2);
    assert(bytes.subrange(0, end) =~= bytes);
    lemma_number_spans(bytes, 0);
    let (inputs, outputs) = whole_transparent(bytes, 4);
    let lock_time = bytes.subrange(lock_at, lock_at + 4);
    let joinsplits = whole_last_joinsplits(bytes, lock_at + 4);
    let transparent = encoding::transparent_bytes(inputs, outputs);
    let behind = lock_time + encoding::joinsplit_bytes(joinsplits);
    lemma_spans_join(
        bytes,
        lock_at,
        lock_at + 4,
        end,
        lock_time,
        encoding::joinsplit_bytes(joinsplits),
    );
    lemma_spans_join(bytes, 4, lock_at, end, transparent, behind);
    lemma_spans_join(bytes, 0, 4, end, encoding::u32_bytes(2), transparent + behind);
    FullTransaction::V2 { inputs, outputs, lock_time, joinsplits }
}

proof fn whole_v3(bytes: Seq<u8>) -> (transaction: FullTransaction)
    requires
        bytes.len() >= 4,
        bytes::le_value(bytes.subrange(0, 4)) as u32 == 0x8000_0003,
        parser::transaction_body(bytes, 0x8000_0003) matches Ok(part) && part.end >= bytes.len(),
    ensures
        is_written(transaction, bytes),
{
    let end = bytes.len() as int;
    let lock_at = lemma_old_parts(bytes, 0x8000_0003);
    assert(bytes.subrange(0, end) =~= bytes);
    lemma_number_spans(bytes, 0);
    lemma_number_spans(bytes, 4);
    let (inputs, outputs) = whole_transparent(bytes, 8);
    let lock_time = bytes.subrange(lock_at, lock_at + 4);
    let expiry_height = bytes.subrange(lock_at + 4, lock_at + 8);
    let joinsplits = whole_last_joinsplits(bytes, lock_at + 8);
    let transparent = encoding::transparent_bytes(inputs, outputs);
    let times = lock_time + expiry_height;
    let behind = times + encoding::joinsplit_bytes(joinsplits);
    assert(bytes.subrange(lock_at, lock_at + 8) =~= times);
    lemma_spans_join(
        bytes,
        lock_at,
        lock_at + 8,
        end,
        times,
        encoding::joinsplit_bytes(joinsplits),
    );
    lemma_spans_join(bytes, 8, lock_at, end, transparent, behind);
    let group = encoding::u32_bytes(OVERWINTER_GROUP_ID);
    lemma_spans_join(bytes, 4, 8, end, group, transparent + behind);
    lemma_spans_join(
        bytes,
        0,
        4,
        end,
        encoding::u32_bytes(0x8000_0003),
        group + (transparent + behind),
    );
    FullTransaction::V3 { inputs, outputs, lock_time, expiry_height, joinsplits }
}

/// The shielded part of a transaction of version 4 begins at `at` and reaches the end.
#[verifier::opaque]
spec fn v4_ends(bytes: Seq<u8>, at: int) -> bool {
    parser::sapling_v4(bytes, Ok(at)) matches Ok(part) && part.end >= bytes.len()
}

proof fn lemma_v4_parts(bytes: Seq<u8>) -> (lock_at: int)
    requires
        parser::body_v4(bytes, Ok(4)) matches Ok(part) && part.end >= bytes.len(),
    ensures
        parser::skip_group(bytes, Ok(4), SAPLING_GROUP_ID) is Ok,
        parser::skip_transparent(bytes, Ok(8)) == Ok::<int, TransactionParseError>(lock_at),
        lock_at + 16 <= bytes.len(),
        v4_ends(bytes, lock_at + 16),
{
    reveal(parser::body_v4);
    reveal(v4_ends);
    parser::skip_transparent(bytes, Ok(8))->Ok_0
}

proof fn whole_v4_shielded(bytes: Seq<u8>, at: int, balance: Seq<u8>) -> (parts: (
    SaplingBundle,
    JoinSplitBundle,
))
    requires
        0 <= at <= bytes.len(),
        balance.len() == 8,
        v4_ends(bytes, at),
    ensures
        encoding::sapling_fits(parts.0),
        parts.0.balance == balance,
        encoding::joinsplits_fit(parts.1, GROTH16_JOINSPLIT_BYTES as nat),
        spans(
            bytes,
            at,
            bytes.len() as int,
            encoding::sapling_v4_bytes(parts.0, parts.1),
        ),
{
    reveal(v4_ends);
    whole_sapling_v4(bytes, at, balance)
}

proof fn whole_v4(bytes: Seq<u8>) -> (transaction: FullTransaction)
    requires
        bytes.len() >= 4,
        bytes::le_value(bytes.subrange(0, 4)) as u32 == 0x8000_0004,
        parser::body_v4(bytes, Ok(4)) matches Ok(part) && part.end >= bytes.len(),
    ensures
        is_written(transaction, bytes),
{
    let end = bytes.len() as int;
    let lock_at = lemma_v4_parts(bytes);
    assert(bytes.subrange(0, end) =~= bytes);
    lemma_number_spans(bytes, 0);
    lemma_number_spans(bytes, 4);
    let (inputs, outputs) = whole_transparent(bytes, 8);
    let lock_time = bytes.subrange(lock_at, lock_at + 4);
    let expiry_height = bytes.subrange(lock_at + 4, lock_at + 8);
    let balance = bytes.subrange(lock_at + 8, lock_at + 16);
    let (sapling, joinsplits) = whole_v4_shielded(bytes, lock_at + 16, balance);
    let transparent = encoding::transparent_bytes(inputs, outputs);
    let times = lock_time + expiry_height + balance;
    let shielded = encoding::sapling_v4_bytes(sapling, joinsplits);
    assert(bytes.subrange(lock_at, lock_at + 16) =~= times);
    lemma_spans_join(bytes, lock_at, lock_at + 16, end, times, shielded);
    lemma_spans_join(bytes, 8, lock_at, end, transparent, times + shielded);
    let group = encoding::u32_bytes(SAPLING_GROUP_ID);
    lemma_spans_join(bytes, 4, 8, end, group, transparent + (times + shielded));
    lemma_spans_join(
        bytes,
        0,
        4,
        end,
        encoding::u32_bytes(0x8000_0004),
        group + (transparent + (times + shielded)),
    );
    FullTransaction::V4 { inputs, outputs, lock_time, expiry_height, sapling, joinsplits }
}

/// What lies in front of the Sapling part of a transaction of version 5 or 6.
proof fn whole_prefix(bytes: Seq<u8>, header: u32, group: u32, behind: Seq<u8>) -> (parts: (
    Seq<FullInput>,
    Seq<FullOutput>,
))
    requires
        bytes.len() >= 4,
        bytes::le_value(bytes.subrange(0, 4)) as u32 == header,
        parser::skip_v5_prefix(bytes, Ok(4), group) matches Ok(at) && spans(
            bytes,
            at,
            bytes.len() as int,
            behind,
        ),
    ensures
        encoding::transparent_fits(parts.0, parts.1),
        bytes.len() >= 20,
        spans(
            bytes,
            0,
            bytes.len() as int,
            encoding::u32_bytes(header) + (encoding::u32_bytes(group) + ((bytes.subrange(8, 12)
                + bytes.subrange(12, 16) + bytes.subrange(16, 20)) + (encoding::transparent_bytes(
                parts.0,
                parts.1,
            ) + behind))),
        ),
        bytes.subrange(0, bytes.len() as int) == bytes,
{
    let end = bytes.len() as int;
    let at = parser::skip_v5_prefix(bytes, Ok(4), group)->Ok_0;
    assert(bytes.subrange(0, end) =~= bytes);
    lemma_number_spans(bytes, 0);
    lemma_number_spans(bytes, 4);
    let (inputs, outputs) = whole_transparent(bytes, 20);
    let ids = bytes.subrange(8, 12) + bytes.subrange(12, 16) + bytes.subrange(16, 20);
    let transparent = encoding::transparent_bytes(inputs, outputs);
    assert(bytes.subrange(8, 20) =~= ids);
    lemma_spans_join(bytes, 20, at, end, transparent, behind);
    lemma_spans_join(bytes, 8, 20, end, ids, transparent + behind);
    let group_id = encoding::u32_bytes(group);
    lemma_spans_join(bytes, 4, 8, end, group_id, ids + (transparent + behind));
    lemma_spans_join(
        bytes,
        0,
        4,
        end,
        encoding::u32_bytes(header),
        group_id + (ids + (transparent + behind)),
    );
    (inputs, outputs)
}

/// The shielded parts of a transaction of version 5 begin at `at` and reach the end.
#[verifier::opaque]
spec fn v5_ends(bytes: Seq<u8>, at: int) -> bool {
    parser::sapling_v5(bytes, Ok(at)) matches Ok(sapling) && (parser::shielded_actions(
        bytes,
        Ok(sapling.end),
    ) matches Ok((_, end)) && end >= bytes.len())
}

proof fn lemma_v5_parts(bytes: Seq<u8>) -> (at: int)
    requires
        parser::body_v5(bytes, Ok(4)) matches Ok(part) && part.end >= bytes.len(),
    ensures
        parser::skip_v5_prefix(bytes, Ok(4), V5_GROUP_ID) == Ok::<int, TransactionParseError>(at),
        v5_ends(bytes, at),
{
    reveal(parser::body_v5);
    reveal(v5_ends);
    parser::skip_v5_prefix(bytes, Ok(4), V5_GROUP_ID)->Ok_0
}

proof fn whole_v5_shielded(bytes: Seq<u8>, at: int) -> (bundles: (SaplingBundle, ActionBundle))
    requires
        0 <= at <= bytes.len(),
        v5_ends(bytes, at),
    ensures
        encoding::sapling_fits(bundles.0),
        encoding::actions_fit(bundles.1),
        spans(
            bytes,
            at,
            bytes.len() as int,
            encoding::sapling_v5_bytes(bundles.0) + encoding::action_bundle_bytes(bundles.1),
        ),
{
    reveal(v5_ends);
    let middle = parser::sapling_v5(bytes, Ok(at))->Ok_0.end;
    let sapling = whole_sapling_v5(bytes, at);
    let orchard = whole_actions(bytes, middle);
    lemma_spans_join(
        bytes,
        at,
        middle,
        bytes.len() as int,
        encoding::sapling_v5_bytes(sapling),
        encoding::action_bundle_bytes(orchard),
    );
    (sapling, orchard)
}

proof fn whole_v5(bytes: Seq<u8>) -> (transaction: FullTransaction)
    requires
        bytes.len() >= 4,
        bytes::le_value(bytes.subrange(0, 4)) as u32 == 0x8000_0005,
        parser::body_v5(bytes, Ok(4)) matches Ok(part) && part.end >= bytes.len(),
    ensures
        is_written(transaction, bytes),
{
    let at = lemma_v5_parts(bytes);
    lemma_prefix_ends(bytes, V5_GROUP_ID);
    let (sapling, orchard) = whole_v5_shielded(bytes, at);
    let behind = encoding::sapling_v5_bytes(sapling) + encoding::action_bundle_bytes(orchard);
    let (inputs, outputs) = whole_prefix(bytes, 0x8000_0005, V5_GROUP_ID, behind);
    FullTransaction::V5 {
        branch_id: bytes.subrange(8, 12),
        lock_time: bytes.subrange(12, 16),
        expiry_height: bytes.subrange(16, 20),
        inputs,
        outputs,
        sapling,
        orchard,
    }
}

/// The shielded parts of a transaction of version 6 begin at `at` and reach the end.
#[verifier::opaque]
spec fn v6_ends(bytes: Seq<u8>, at: int) -> bool {
    parser::sapling_v5(bytes, Ok(at)) matches Ok(sapling) && (parser::shielded_actions(
        bytes,
        Ok(sapling.end),
    ) matches Ok((_, orchard_end)) && (parser::shielded_actions(bytes, Ok(orchard_end)) matches Ok(
        (_, end),
    ) && end >= bytes.len()))
}

proof fn lemma_v6_parts(bytes: Seq<u8>) -> (at: int)
    requires
        parser::body_v6(bytes, Ok(4)) matches Ok(part) && part.end >= bytes.len(),
    ensures
        parser::skip_v5_prefix(bytes, Ok(4), V6_GROUP_ID) == Ok::<int, TransactionParseError>(at),
        v6_ends(bytes, at),
{
    reveal(parser::body_v6);
    reveal(v6_ends);
    parser::skip_v5_prefix(bytes, Ok(4), V6_GROUP_ID)->Ok_0
}

/// Two bundles of actions, one behind the other, up to the end.
proof fn whole_action_bundles(bytes: Seq<u8>, at: int) -> (bundles: (ActionBundle, ActionBundle))
    requires
        0 <= at <= bytes.len(),
        parser::shielded_actions(bytes, Ok(at)) is Ok,
        parser::shielded_actions(
            bytes,
            Ok(parser::shielded_actions(bytes, Ok(at))->Ok_0.1),
        ) matches Ok((_, end)) && end >= bytes.len(),
    ensures
        encoding::actions_fit(bundles.0),
        encoding::actions_fit(bundles.1),
        spans(
            bytes,
            at,
            bytes.len() as int,
            encoding::action_bundle_bytes(bundles.0) + encoding::action_bundle_bytes(bundles.1),
        ),
{
    let middle = parser::shielded_actions(bytes, Ok(at))->Ok_0.1;
    let first = whole_actions(bytes, at);
    let second = whole_actions(bytes, middle);
    lemma_spans_join(
        bytes,
        at,
        middle,
        bytes.len() as int,
        encoding::action_bundle_bytes(first),
        encoding::action_bundle_bytes(second),
    );
    (first, second)
}

proof fn whole_v6_shielded(bytes: Seq<u8>, at: int) -> (bundles: (
    SaplingBundle,
    ActionBundle,
    ActionBundle,
))
    requires
        0 <= at <= bytes.len(),
        v6_ends(bytes, at),
    ensures
        encoding::sapling_fits(bundles.0),
        encoding::actions_fit(bundles.1),
        encoding::actions_fit(bundles.2),
        spans(
            bytes,
            at,
            bytes.len() as int,
            encoding::sapling_v5_bytes(bundles.0) + (encoding::action_bundle_bytes(bundles.1)
                + encoding::action_bundle_bytes(bundles.2)),
        ),
{
    reveal(v6_ends);
    let middle = parser::sapling_v5(bytes, Ok(at))->Ok_0.end;
    let sapling = whole_sapling_v5(bytes, at);
    let (orchard, ironwood) = whole_action_bundles(bytes, middle);
    lemma_spans_join(
        bytes,
        at,
        middle,
        bytes.len() as int,
        encoding::sapling_v5_bytes(sapling),
        encoding::action_bundle_bytes(orchard) + encoding::action_bundle_bytes(ironwood),
    );
    (sapling, orchard, ironwood)
}

#[verifier::rlimit(30)]
proof fn whole_v6(bytes: Seq<u8>) -> (transaction: FullTransaction)
    requires
        bytes.len() >= 4,
        bytes::le_value(bytes.subrange(0, 4)) as u32 == 0x8000_0006,
        parser::body_v6(bytes, Ok(4)) matches Ok(part) && part.end >= bytes.len(),
    ensures
        is_written(transaction, bytes),
{
    let at = lemma_v6_parts(bytes);
    lemma_prefix_ends(bytes, V6_GROUP_ID);
    let (sapling, orchard, ironwood) = whole_v6_shielded(bytes, at);
    let behind = encoding::sapling_v5_bytes(sapling) + (encoding::action_bundle_bytes(orchard)
        + encoding::action_bundle_bytes(ironwood));
    let (inputs, outputs) = whole_prefix(bytes, 0x8000_0006, V6_GROUP_ID, behind);
    FullTransaction::V6 {
        branch_id: bytes.subrange(8, 12),
        lock_time: bytes.subrange(12, 16),
        expiry_height: bytes.subrange(16, 20),
        inputs,
        outputs,
        sapling,
        orchard,
        ironwood,
    }
}

proof fn lemma_prefix_ends(bytes: Seq<u8>, group: u32)
    requires
        parser::skip_v5_prefix(bytes, Ok(4), group) is Ok,
    ensures
        0 <= parser::skip_v5_prefix(bytes, Ok(4), group)->Ok_0 <= bytes.len(),
{
    let parts = whole_transparent(bytes, 20);
}

/// Bytes that are read as a transaction are the serialization of a transaction with all its fields,
/// and what is read is what that transaction has.
pub proof fn law_parsed_bytes_are_a_transaction(bytes: Seq<u8>, txid: Seq<u8>, index: u64)
    -> (transaction: FullTransaction)
    requires
        parser::read_transaction(bytes, txid, index) is Ok,
    ensures
        encoding::is_full(transaction),
        encoding::full_bytes(transaction) == bytes,
        parser::read_transaction(bytes, txid, index) == Ok::<
            TransactionView,
            TransactionParseError,
        >(encoding::compact_of(transaction, txid, index)),
{
    reveal(parser::read_transaction);
    let header = bytes::le_value(bytes.subrange(0, 4)) as u32;
    parser::lemma_body_versions(bytes, header);
    let transaction = if header == 1 {
        whole_v1(bytes)
    } else if header == 2 {
        whole_v2(bytes)
    } else if header == 0x8000_0003 {
        whole_v3(bytes)
    } else if header == 0x8000_0004 {
        whole_v4(bytes)
    } else if header == 0x8000_0005 {
        whole_v5(bytes)
    } else {
        whole_v6(bytes)
    };
    encoding::law_selective_parse_reads_the_whole_transaction(transaction, txid, index);
    transaction
}

} // verus!
