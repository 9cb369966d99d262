//! What reading a transaction gives where its bytes are cut, and where there are more behind them.
use vstd::prelude::*;

use crate::bytes;
use crate::encoding;
use crate::parser;
use crate::parser::{
    ActionView, SaplingPart, ShieldedPart, Step, TransactionParseError, TransactionView,
    BCTV14_JOINSPLIT_BYTES, GROTH16_JOINSPLIT_BYTES, MAX_TRANSACTION_BYTES, MAX_VECTOR_ITEMS,
    OVERWINTER_GROUP_ID, SAPLING_GROUP_ID, V5_GROUP_ID, V6_GROUP_ID,
};

verus! {

pub open spec fn is_truncated<T>(result: Result<T, TransactionParseError>) -> bool {
    result matches Err(error) && error is Truncated
}

/// How a step over all bytes and a step over the first `len` of them go together. `same` says that
/// they give the same.
spec fn agree(whole: Step, cut: Step, same: bool, len: int) -> bool {
    &&& whole matches Ok(end) ==> 0 <= end && if end <= len {
        same
    } else {
        is_truncated(cut)
    }
    &&& cut matches Ok(end) ==> same && end <= len
}

spec fn steps_agree(whole: Step, cut: Step, len: int) -> bool {
    agree(whole, cut, whole == cut, len)
}

spec fn counts_agree(
    whole: Result<(nat, int), TransactionParseError>,
    cut: Result<(nat, int), TransactionParseError>,
    len: int,
) -> bool {
    agree(count_end(whole), count_end(cut), whole == cut, len)
}

spec fn count_end(count: Result<(nat, int), TransactionParseError>) -> Step {
    match count {
        Err(error) => Err(error),
        Ok((_, end)) => Ok(end),
    }
}

spec fn sapling_end(part: Result<SaplingPart, TransactionParseError>) -> Step {
    match part {
        Err(error) => Err(error),
        Ok(part) => Ok(part.end),
    }
}

spec fn actions_end(part: Result<(Seq<ActionView>, int), TransactionParseError>) -> Step {
    match part {
        Err(error) => Err(error),
        Ok((_, end)) => Ok(end),
    }
}

spec fn part_end(part: Result<ShieldedPart, TransactionParseError>) -> Step {
    match part {
        Err(error) => Err(error),
        Ok(part) => Ok(part.end),
    }
}

spec fn is_front(whole: Seq<u8>, cut: Seq<u8>) -> bool {
    &&& whole.len() <= MAX_TRANSACTION_BYTES
    &&& cut.len() <= whole.len()
    &&& cut == whole.take(cut.len() as int)
}

proof fn lemma_front_range(whole: Seq<u8>, cut: Seq<u8>, from: int, to: int)
    requires
        is_front(whole, cut),
        0 <= from <= to <= cut.len(),
    ensures
        whole.subrange(from, to) == cut.subrange(from, to),
{
    assert(whole.subrange(from, to) =~= cut.subrange(from, to));
}

proof fn lemma_skip_agrees(whole: Seq<u8>, cut: Seq<u8>, from: Step, cut_from: Step, len: nat)
    requires
        is_front(whole, cut),
        steps_agree(from, cut_from, cut.len() as int),
    ensures
        steps_agree(
            parser::skip(whole, from, len),
            parser::skip(cut, cut_from, len),
            cut.len() as int,
        ),
{
}

proof fn lemma_count_agrees(whole: Seq<u8>, cut: Seq<u8>, from: Step, cut_from: Step, max: nat)
    requires
        is_front(whole, cut),
        steps_agree(from, cut_from, cut.len() as int),
    ensures
        counts_agree(
            parser::compact_size(whole, from, max),
            parser::compact_size(cut, cut_from, max),
            cut.len() as int,
        ),
{
    if let (Ok(at), Ok(_)) = (from, cut_from) {
        if at < cut.len() {
            let width = parser::compact_size_width(cut[at]);
            if at + 1 + width <= cut.len() {
                lemma_front_range(whole, cut, at + 1, at + 1 + width);
            }
        }
    }
}

proof fn lemma_string_agrees(whole: Seq<u8>, cut: Seq<u8>, from: Step, cut_from: Step)
    requires
        is_front(whole, cut),
        steps_agree(from, cut_from, cut.len() as int),
    ensures
        steps_agree(
            parser::skip_string(whole, from),
            parser::skip_string(cut, cut_from),
            cut.len() as int,
        ),
{
    let max = MAX_TRANSACTION_BYTES as nat;
    lemma_count_agrees(whole, cut, from, cut_from, max);
    let count = parser::compact_size(whole, from, max);
    let cut_count = parser::compact_size(cut, cut_from, max);
    if let Ok((len, _)) = count {
        lemma_skip_agrees(whole, cut, count_end(count), count_end(cut_count), len);
    }
}

proof fn lemma_inputs_agree(
    whole: Seq<u8>,
    cut: Seq<u8>,
    from: Step,
    cut_from: Step,
    count: nat,
)
    requires
        is_front(whole, cut),
        steps_agree(from, cut_from, cut.len() as int),
    ensures
        steps_agree(
            parser::skip_inputs(whole, from, count),
            parser::skip_inputs(cut, cut_from, count),
            cut.len() as int,
        ),
    decreases count,
{
    if count > 0 {
        let script = parser::skip(whole, from, 36);
        let cut_script = parser::skip(cut, cut_from, 36);
        lemma_skip_agrees(whole, cut, from, cut_from, 36);
        lemma_string_agrees(whole, cut, script, cut_script);
        lemma_skip_agrees(
            whole,
            cut,
            parser::skip_string(whole, script),
            parser::skip_string(cut, cut_script),
            4,
        );
        lemma_inputs_agree(
            whole,
            cut,
            parser::skip_input(whole, from),
            parser::skip_input(cut, cut_from),
            (count - 1) as nat,
        );
    }
}

proof fn lemma_outputs_agree(
    whole: Seq<u8>,
    cut: Seq<u8>,
    from: Step,
    cut_from: Step,
    count: nat,
)
    requires
        is_front(whole, cut),
        steps_agree(from, cut_from, cut.len() as int),
    ensures
        steps_agree(
            parser::skip_outputs(whole, from, count),
            parser::skip_outputs(cut, cut_from, count),
            cut.len() as int,
        ),
    decreases count,
{
    if count > 0 {
        lemma_skip_agrees(whole, cut, from, cut_from, 8);
        lemma_string_agrees(
            whole,
            cut,
            parser::skip(whole, from, 8),
            parser::skip(cut, cut_from, 8),
        );
        lemma_outputs_agree(
            whole,
            cut,
            parser::skip_output(whole, from),
            parser::skip_output(cut, cut_from),
            (count - 1) as nat,
        );
    }
}

proof fn lemma_transparent_agrees(whole: Seq<u8>, cut: Seq<u8>, from: Step, cut_from: Step)
    requires
        is_front(whole, cut),
        steps_agree(from, cut_from, cut.len() as int),
    ensures
        steps_agree(
            parser::skip_transparent(whole, from),
            parser::skip_transparent(cut, cut_from),
            cut.len() as int,
        ),
{
    let inputs = parser::item_count(whole, from);
    let cut_inputs = parser::item_count(cut, cut_from);
    lemma_count_agrees(whole, cut, from, cut_from, MAX_VECTOR_ITEMS as nat);
    if let Ok((count, _)) = inputs {
        let end = parser::skip_inputs(whole, count_end(inputs), count);
        let cut_end = parser::skip_inputs(cut, count_end(cut_inputs), count);
        lemma_inputs_agree(whole, cut, count_end(inputs), count_end(cut_inputs), count);
        if let Err(error) = cut_inputs {
            encoding::lemma_failed_step(cut, error, count);
        }
        let outputs = parser::item_count(whole, end);
        let cut_outputs = parser::item_count(cut, cut_end);
        lemma_count_agrees(whole, cut, end, cut_end, MAX_VECTOR_ITEMS as nat);
        if let Ok((count, _)) = outputs {
            lemma_outputs_agree(whole, cut, count_end(outputs), count_end(cut_outputs), count);
            if let Err(error) = cut_outputs {
                encoding::lemma_failed_step(cut, error, count);
            }
        }
    }
}

proof fn lemma_joinsplits_agree(
    whole: Seq<u8>,
    cut: Seq<u8>,
    from: Step,
    cut_from: Step,
    size: nat,
)
    requires
        is_front(whole, cut),
        steps_agree(from, cut_from, cut.len() as int),
    ensures
        steps_agree(
            parser::skip_joinsplits(whole, from, size),
            parser::skip_joinsplits(cut, cut_from, size),
            cut.len() as int,
        ),
{
    let items = parser::item_count(whole, from);
    let cut_items = parser::item_count(cut, cut_from);
    lemma_count_agrees(whole, cut, from, cut_from, MAX_VECTOR_ITEMS as nat);
    if let Ok((count, _)) = items {
        let end = parser::skip(whole, count_end(items), count * size);
        let cut_end = parser::skip(cut, count_end(cut_items), count * size);
        lemma_skip_agrees(whole, cut, count_end(items), count_end(cut_items), count * size);
        lemma_skip_agrees(whole, cut, end, cut_end, 96);
    }
}

proof fn lemma_group_agrees(
    whole: Seq<u8>,
    cut: Seq<u8>,
    from: Step,
    cut_from: Step,
    expected: u32,
)
    requires
        is_front(whole, cut),
        steps_agree(from, cut_from, cut.len() as int),
    ensures
        steps_agree(
            parser::skip_group(whole, from, expected),
            parser::skip_group(cut, cut_from, expected),
            cut.len() as int,
        ),
{
    lemma_skip_agrees(whole, cut, from, cut_from, 4);
    if let Ok(end) = parser::skip(cut, cut_from, 4) {
        lemma_front_range(whole, cut, end - 4, end);
    }
}

/// Items of one size that lie in the front are read from it as from the whole.
proof fn lemma_items_agree(whole: Seq<u8>, cut: Seq<u8>, at: int, count: nat, size: nat)
    requires
        is_front(whole, cut),
        0 <= at,
        at + count * size <= cut.len(),
    ensures
        forall|skipped: nat|
            skipped + 32 <= size ==> #[trigger] parser::nullifiers_at(
                whole,
                at,
                count,
                size,
                skipped,
            ) == parser::nullifiers_at(cut, at, count, size, skipped),
        size >= 148 ==> parser::sapling_outputs_at(whole, at, count, size)
            == parser::sapling_outputs_at(cut, at, count, size),
        size == 820 ==> parser::shielded_actions_at(whole, at, count)
            == parser::shielded_actions_at(cut, at, count),
{
    assert forall|i: int| 0 <= i < count implies 0 <= #[trigger] (i * size) && i * size + size
        <= count * size by {
        assert(0 <= i * size && i * size + size <= count * size) by (nonlinear_arith)
            requires
                0 <= i < count,
        ;
    }
    assert forall|skipped: nat| skipped + 32 <= size implies #[trigger] parser::nullifiers_at(
        whole,
        at,
        count,
        size,
        skipped,
    ) == parser::nullifiers_at(cut, at, count, size, skipped) by {
        let read = parser::nullifiers_at(whole, at, count, size, skipped);
        let cut_read = parser::nullifiers_at(cut, at, count, size, skipped);
        assert forall|i: int| 0 <= i < count implies #[trigger] read[i] == cut_read[i] by {
            let place = at + i * size + skipped;
            lemma_front_range(whole, cut, place, place + 32);
        }
        assert(read =~= cut_read);
    }
    if size >= 148 {
        let read = parser::sapling_outputs_at(whole, at, count, size);
        let cut_read = parser::sapling_outputs_at(cut, at, count, size);
        assert forall|i: int| 0 <= i < count implies #[trigger] read[i] == cut_read[i] by {
            let place = at + i * size;
            lemma_front_range(whole, cut, place + 32, place + 64);
            lemma_front_range(whole, cut, place + 64, place + 96);
            lemma_front_range(whole, cut, place + 96, place + 148);
        }
        assert(read =~= cut_read);
    }
    if size == 820 {
        let read = parser::shielded_actions_at(whole, at, count);
        let cut_read = parser::shielded_actions_at(cut, at, count);
        assert forall|i: int| 0 <= i < count implies #[trigger] read[i] == cut_read[i] by {
            let place = at + i * 820;
            assert(0 <= i * size);
            lemma_front_range(whole, cut, place + 32, place + 64);
            lemma_front_range(whole, cut, place + 96, place + 128);
            lemma_front_range(whole, cut, place + 128, place + 160);
            lemma_front_range(whole, cut, place + 160, place + 212);
        }
        assert(read =~= cut_read);
    }
}

proof fn lemma_sapling_v4_agrees(whole: Seq<u8>, cut: Seq<u8>, from: Step, cut_from: Step)
    requires
        is_front(whole, cut),
        steps_agree(from, cut_from, cut.len() as int),
    ensures
        ({
            let part = parser::sapling_v4(whole, from);
            let cut_part = parser::sapling_v4(cut, cut_from);
            agree(sapling_end(part), sapling_end(cut_part), part == cut_part, cut.len() as int)
        }),
{
    let len = cut.len() as int;
    let spends = parser::item_count(whole, from);
    let cut_spends = parser::item_count(cut, cut_from);
    lemma_count_agrees(whole, cut, from, cut_from, MAX_VECTOR_ITEMS as nat);
    if let Ok((spend_count, spends_at)) = spends {
        let spends_end = parser::skip(whole, count_end(spends), spend_count * 384);
        let cut_spends_end = parser::skip(cut, count_end(cut_spends), spend_count * 384);
        lemma_skip_agrees(
            whole,
            cut,
            count_end(spends),
            count_end(cut_spends),
            spend_count * 384,
        );
        let outputs = parser::item_count(whole, spends_end);
        let cut_outputs = parser::item_count(cut, cut_spends_end);
        lemma_count_agrees(whole, cut, spends_end, cut_spends_end, MAX_VECTOR_ITEMS as nat);
        if let Ok((output_count, outputs_at)) = outputs {
            let size = GROTH16_JOINSPLIT_BYTES as nat;
            let outputs_end = parser::skip(whole, count_end(outputs), output_count * 948);
            let cut_outputs_end = parser::skip(cut, count_end(cut_outputs), output_count * 948);
            lemma_skip_agrees(
                whole,
                cut,
                count_end(outputs),
                count_end(cut_outputs),
                output_count * 948,
            );
            lemma_joinsplits_agree(whole, cut, outputs_end, cut_outputs_end, size);
            let joinsplits_end = parser::skip_joinsplits(whole, outputs_end, size);
            let cut_joinsplits_end = parser::skip_joinsplits(cut, cut_outputs_end, size);
            lemma_skip_agrees(whole, cut, joinsplits_end, cut_joinsplits_end, 64);
            if cut_spends is Ok && cut_outputs is Ok {
                if spends_at + spend_count * 384 <= len {
                    lemma_items_agree(whole, cut, spends_at, spend_count, 384);
                }
                if outputs_at + output_count * 948 <= len {
                    lemma_items_agree(whole, cut, outputs_at, output_count, 948);
                }
            }
        }
    }
}

proof fn lemma_sapling_proofs_agree(
    whole: Seq<u8>,
    cut: Seq<u8>,
    from: Step,
    cut_from: Step,
    spends: nat,
    outputs: nat,
)
    requires
        is_front(whole, cut),
        steps_agree(from, cut_from, cut.len() as int),
    ensures
        steps_agree(
            parser::skip_sapling_proofs(whole, from, spends, outputs),
            parser::skip_sapling_proofs(cut, cut_from, spends, outputs),
            cut.len() as int,
        ),
{
    let anchor = parser::skip(whole, from, 8);
    let cut_anchor = parser::skip(cut, cut_from, 8);
    lemma_skip_agrees(whole, cut, from, cut_from, 8);
    lemma_skip_agrees(whole, cut, anchor, cut_anchor, 32);
    let proofs = if spends > 0 {
        parser::skip(whole, anchor, 32)
    } else {
        anchor
    };
    let cut_proofs = if spends > 0 {
        parser::skip(cut, cut_anchor, 32)
    } else {
        cut_anchor
    };
    lemma_skip_agrees(whole, cut, proofs, cut_proofs, spends * 256);
    let rest = parser::skip(whole, proofs, spends * 256);
    let cut_rest = parser::skip(cut, cut_proofs, spends * 256);
    lemma_skip_agrees(whole, cut, rest, cut_rest, outputs * 192);
    lemma_skip_agrees(
        whole,
        cut,
        parser::skip(whole, rest, outputs * 192),
        parser::skip(cut, cut_rest, outputs * 192),
        64,
    );
}

proof fn lemma_sapling_v5_agrees(whole: Seq<u8>, cut: Seq<u8>, from: Step, cut_from: Step)
    requires
        is_front(whole, cut),
        steps_agree(from, cut_from, cut.len() as int),
    ensures
        ({
            let part = parser::sapling_v5(whole, from);
            let cut_part = parser::sapling_v5(cut, cut_from);
            agree(sapling_end(part), sapling_end(cut_part), part == cut_part, cut.len() as int)
        }),
{
    let len = cut.len() as int;
    let spends = parser::item_count(whole, from);
    let cut_spends = parser::item_count(cut, cut_from);
    lemma_count_agrees(whole, cut, from, cut_from, MAX_VECTOR_ITEMS as nat);
    if let Ok((spend_count, spends_at)) = spends {
        let spends_end = parser::skip(whole, count_end(spends), spend_count * 96);
        let cut_spends_end = parser::skip(cut, count_end(cut_spends), spend_count * 96);
        lemma_skip_agrees(whole, cut, count_end(spends), count_end(cut_spends), spend_count * 96);
        let outputs = parser::item_count(whole, spends_end);
        let cut_outputs = parser::item_count(cut, cut_spends_end);
        lemma_count_agrees(whole, cut, spends_end, cut_spends_end, MAX_VECTOR_ITEMS as nat);
        if let Ok((output_count, outputs_at)) = outputs {
            let outputs_end = parser::skip(whole, count_end(outputs), output_count * 756);
            let cut_outputs_end = parser::skip(cut, count_end(cut_outputs), output_count * 756);
            lemma_skip_agrees(
                whole,
                cut,
                count_end(outputs),
                count_end(cut_outputs),
                output_count * 756,
            );
            lemma_sapling_proofs_agree(
                whole,
                cut,
                outputs_end,
                cut_outputs_end,
                spend_count,
                output_count,
            );
            if cut_spends is Ok && cut_outputs is Ok {
                if spends_at + spend_count * 96 <= len {
                    lemma_items_agree(whole, cut, spends_at, spend_count, 96);
                }
                if outputs_at + output_count * 756 <= len {
                    lemma_items_agree(whole, cut, outputs_at, output_count, 756);
                }
            }
        }
    }
}

proof fn lemma_actions_agree(whole: Seq<u8>, cut: Seq<u8>, from: Step, cut_from: Step)
    requires
        is_front(whole, cut),
        steps_agree(from, cut_from, cut.len() as int),
    ensures
        ({
            let part = parser::shielded_actions(whole, from);
            let cut_part = parser::shielded_actions(cut, cut_from);
            agree(actions_end(part), actions_end(cut_part), part == cut_part, cut.len() as int)
        }),
{
    let actions = parser::item_count(whole, from);
    let cut_actions = parser::item_count(cut, cut_from);
    lemma_count_agrees(whole, cut, from, cut_from, MAX_VECTOR_ITEMS as nat);
    if let Ok((count, at)) = actions {
        let end = parser::skip(whole, count_end(actions), count * 820);
        let cut_end = parser::skip(cut, count_end(cut_actions), count * 820);
        lemma_skip_agrees(whole, cut, count_end(actions), count_end(cut_actions), count * 820);
        let head = parser::skip(whole, end, 41);
        let cut_head = parser::skip(cut, cut_end, 41);
        lemma_skip_agrees(whole, cut, end, cut_end, 41);
        lemma_string_agrees(whole, cut, head, cut_head);
        let proofs = parser::skip_string(whole, head);
        let cut_proofs = parser::skip_string(cut, cut_head);
        lemma_skip_agrees(whole, cut, proofs, cut_proofs, count * 64);
        lemma_skip_agrees(
            whole,
            cut,
            parser::skip(whole, proofs, count * 64),
            parser::skip(cut, cut_proofs, count * 64),
            64,
        );
        if cut_actions is Ok && at + count * 820 <= cut.len() {
            lemma_items_agree(whole, cut, at, count, 820);
        }
    }
}

proof fn lemma_prefix_agrees(whole: Seq<u8>, cut: Seq<u8>, group: u32)
    requires
        is_front(whole, cut),
        cut.len() >= 4,
    ensures
        steps_agree(
            parser::skip_v5_prefix(whole, Ok(4), group),
            parser::skip_v5_prefix(cut, Ok(4), group),
            cut.len() as int,
        ),
{
    let ids = parser::skip_group(whole, Ok(4), group);
    let cut_ids = parser::skip_group(cut, Ok(4), group);
    lemma_group_agrees(whole, cut, Ok(4), Ok(4), group);
    lemma_skip_agrees(whole, cut, ids, cut_ids, 12);
    lemma_transparent_agrees(
        whole,
        cut,
        parser::skip(whole, ids, 12),
        parser::skip(cut, cut_ids, 12),
    );
}

spec fn parts_agree(
    whole: Result<ShieldedPart, TransactionParseError>,
    cut: Result<ShieldedPart, TransactionParseError>,
    len: int,
) -> bool {
    agree(part_end(whole), part_end(cut), whole == cut, len)
}

proof fn lemma_body_v4_agrees(whole: Seq<u8>, cut: Seq<u8>)
    requires
        is_front(whole, cut),
        cut.len() >= 4,
    ensures
        parts_agree(
            parser::body_v4(whole, Ok(4)),
            parser::body_v4(cut, Ok(4)),
            cut.len() as int,
        ),
{
    reveal(parser::body_v4);
    let group = parser::skip_group(whole, Ok(4), SAPLING_GROUP_ID);
    let cut_group = parser::skip_group(cut, Ok(4), SAPLING_GROUP_ID);
    lemma_group_agrees(whole, cut, Ok(4), Ok(4), SAPLING_GROUP_ID);
    lemma_transparent_agrees(whole, cut, group, cut_group);
    let transparent = parser::skip_transparent(whole, group);
    let cut_transparent = parser::skip_transparent(cut, cut_group);
    lemma_skip_agrees(whole, cut, transparent, cut_transparent, 16);
    lemma_sapling_v4_agrees(
        whole,
        cut,
        parser::skip(whole, transparent, 16),
        parser::skip(cut, cut_transparent, 16),
    );
}

proof fn lemma_body_v5_agrees(whole: Seq<u8>, cut: Seq<u8>)
    requires
        is_front(whole, cut),
        cut.len() >= 4,
    ensures
        parts_agree(
            parser::body_v5(whole, Ok(4)),
            parser::body_v5(cut, Ok(4)),
            cut.len() as int,
        ),
{
    reveal(parser::body_v5);
    let prefix = parser::skip_v5_prefix(whole, Ok(4), V5_GROUP_ID);
    let cut_prefix = parser::skip_v5_prefix(cut, Ok(4), V5_GROUP_ID);
    lemma_prefix_agrees(whole, cut, V5_GROUP_ID);
    lemma_sapling_v5_agrees(whole, cut, prefix, cut_prefix);
    lemma_actions_agree(
        whole,
        cut,
        sapling_end(parser::sapling_v5(whole, prefix)),
        sapling_end(parser::sapling_v5(cut, cut_prefix)),
    );
}

proof fn lemma_body_v6_agrees(whole: Seq<u8>, cut: Seq<u8>)
    requires
        is_front(whole, cut),
        cut.len() >= 4,
    ensures
        parts_agree(
            parser::body_v6(whole, Ok(4)),
            parser::body_v6(cut, Ok(4)),
            cut.len() as int,
        ),
{
    reveal(parser::body_v6);
    let prefix = parser::skip_v5_prefix(whole, Ok(4), V6_GROUP_ID);
    let cut_prefix = parser::skip_v5_prefix(cut, Ok(4), V6_GROUP_ID);
    lemma_prefix_agrees(whole, cut, V6_GROUP_ID);
    lemma_sapling_v5_agrees(whole, cut, prefix, cut_prefix);
    let sapling = sapling_end(parser::sapling_v5(whole, prefix));
    let cut_sapling = sapling_end(parser::sapling_v5(cut, cut_prefix));
    lemma_actions_agree(whole, cut, sapling, cut_sapling);
    lemma_actions_agree(
        whole,
        cut,
        actions_end(parser::shielded_actions(whole, sapling)),
        actions_end(parser::shielded_actions(cut, cut_sapling)),
    );
}

proof fn lemma_old_bodies_agree(whole: Seq<u8>, cut: Seq<u8>, header: u32)
    requires
        is_front(whole, cut),
        cut.len() >= 4,
        header == 1 || header == 2 || header == 0x8000_0003,
    ensures
        parts_agree(
            parser::transaction_body(whole, header),
            parser::transaction_body(cut, header),
            cut.len() as int,
        ),
{
    reveal(parser::transaction_body);
    let bctv14 = BCTV14_JOINSPLIT_BYTES as nat;
    lemma_group_agrees(whole, cut, Ok(4), Ok(4), OVERWINTER_GROUP_ID);
    let overwinter = header == 0x8000_0003;
    let start: Step = if overwinter {
        parser::skip_group(whole, Ok(4), OVERWINTER_GROUP_ID)
    } else {
        Ok(4)
    };
    let cut_start: Step = if overwinter {
        parser::skip_group(cut, Ok(4), OVERWINTER_GROUP_ID)
    } else {
        Ok(4)
    };
    let times: nat = if overwinter {
        8
    } else {
        4
    };
    lemma_transparent_agrees(whole, cut, start, cut_start);
    let transparent = parser::skip_transparent(whole, start);
    let cut_transparent = parser::skip_transparent(cut, cut_start);
    lemma_skip_agrees(whole, cut, transparent, cut_transparent, times);
    lemma_joinsplits_agree(
        whole,
        cut,
        parser::skip(whole, transparent, times),
        parser::skip(cut, cut_transparent, times),
        bctv14,
    );
}

proof fn lemma_bodies_agree(whole: Seq<u8>, cut: Seq<u8>, header: u32)
    requires
        is_front(whole, cut),
        cut.len() >= 4,
    ensures
        parts_agree(
            parser::transaction_body(whole, header),
            parser::transaction_body(cut, header),
            cut.len() as int,
        ),
{
    if header == 1 || header == 2 || header == 0x8000_0003 {
        lemma_old_bodies_agree(whole, cut, header);
    } else {
        reveal(parser::transaction_body);
        lemma_body_v4_agrees(whole, cut);
        lemma_body_v5_agrees(whole, cut);
        lemma_body_v6_agrees(whole, cut);
    }
}

/// A transaction without its last bytes, one or more, is found truncated.
pub proof fn law_cut_transaction_is_truncated(
    bytes: Seq<u8>,
    len: int,
    txid: Seq<u8>,
    index: u64,
)
    requires
        parser::read_transaction(bytes, txid, index) is Ok,
        0 <= len < bytes.len(),
    ensures
        is_truncated(parser::read_transaction(bytes.take(len), txid, index)),
{
    reveal(parser::read_transaction);
    let cut = bytes.take(len);
    if len >= 4 {
        lemma_front_range(bytes, cut, 0, 4);
        lemma_bodies_agree(bytes, cut, bytes::le_value(bytes.subrange(0, 4)) as u32);
    }
}

/// A transaction with bytes behind it is refused for them, at the place where it ends.
pub proof fn law_longer_transaction_has_trailing_bytes(
    bytes: Seq<u8>,
    more: Seq<u8>,
    txid: Seq<u8>,
    index: u64,
)
    requires
        parser::read_transaction(bytes, txid, index) is Ok,
        more.len() > 0,
        bytes.len() + more.len() <= MAX_TRANSACTION_BYTES,
    ensures
        parser::read_transaction(bytes + more, txid, index) == Err::<
            TransactionView,
            TransactionParseError,
        >(TransactionParseError::TrailingBytes { offset: bytes.len() as usize }),
{
    reveal(parser::read_transaction);
    let whole = bytes + more;
    assert(bytes =~= whole.take(bytes.len() as int));
    lemma_front_range(whole, bytes, 0, 4);
    lemma_bodies_agree(whole, bytes, bytes::le_value(bytes.subrange(0, 4)) as u32);
}

} // verus!
