//! Parsing loses nothing: the words of an instruction can be had from it.

use crate::decoder::{
    read_enumerant, read_int64, read_string, read_word, skip_string, trim_nul, Cursor,
};
use crate::grammar::{
    first_opcode, BasicKind, Grammar, InstructionGrammar, LogicalOperand, OperandKind,
    OperandQuantifier,
};
use crate::laws::header::law_word_bytes;
use crate::laws::locality::{law_instruction_is_local, same_rules};
use crate::mr::{InstructionView, OperandView};
use crate::spirv::{word_bytes, Word};
use crate::state::State;
use crate::syntax::{
    components, empty_draft, enumerant_parameters, law_word_count_is_used_up, lemma_basic_onward,
    lemma_each_onward, lemma_ids_onward, lemma_slot_onward, lemma_slots_onward, opcode, read_basic,
    read_each, read_ids, read_inst, read_literal, read_operand, read_slot, read_slots,
    read_spec_constant_op, word_count, Context, Draft,
};
use vstd::prelude::*;
use vstd::utf8::{decode_utf8_encode_utf8, encode_utf8};

verus! {

/// The bytes of a string: its UTF-8, then one to four nul bytes, up to the end of a
/// word.
pub open spec fn string_bytes(text: Seq<char>) -> Seq<u8> {
    let encoded = encode_utf8(text);
    encoded + Seq::new((4 - encoded.len() % 4) as nat, |i: int| 0u8)
}

/// The bytes of an operand.
pub open spec fn operand_bytes(operand: OperandView) -> Seq<u8> {
    match operand {
        OperandView::IdRef(id) => word_bytes(id),
        OperandView::IdScope(id) => word_bytes(id),
        OperandView::IdMemorySemantics(id) => word_bytes(id),
        OperandView::LiteralInt32(value) => word_bytes(value),
        OperandView::LiteralInt64(value) => wide_bytes(value),
        OperandView::LiteralFloat32(bits) => word_bytes(bits),
        OperandView::LiteralFloat64(bits) => wide_bytes(bits),
        OperandView::LiteralExtInstInteger(number) => word_bytes(number),
        OperandView::LiteralSpecConstantOpInteger(opcode) => word_bytes(opcode as Word),
        OperandView::LiteralString(text) => string_bytes(text),
        OperandView::Enumerant(_, value) => word_bytes(value),
    }
}

/// The bytes of a two-word number, the low-order word first.
pub open spec fn wide_bytes(value: u64) -> Seq<u8> {
    word_bytes((value % 0x1_0000_0000) as Word) + word_bytes((value / 0x1_0000_0000) as Word)
}

/// The bytes of some operands, one after another.
pub open spec fn operands_bytes(operands: Seq<OperandView>) -> Seq<u8>
    decreases operands.len(),
{
    if operands.len() == 0 {
        Seq::empty()
    } else {
        operands_bytes(operands.drop_last()) + operand_bytes(operands.last())
    }
}

/// The bytes of an id that may be missing.
pub open spec fn id_bytes(id: Option<Word>) -> Seq<u8> {
    match id {
        Some(id) => word_bytes(id),
        None => Seq::empty(),
    }
}

/// The bytes of the result type, the result id and the operands.
pub open spec fn body_bytes(
    result_type: Option<Word>,
    result_id: Option<Word>,
    operands: Seq<OperandView>,
) -> Seq<u8> {
    id_bytes(result_type) + id_bytes(result_id) + operands_bytes(operands)
}

/// The bytes of an instruction: the word count and the opcode, then the result
/// type, the result id and the operands.
pub open spec fn instruction_bytes(inst: InstructionView) -> Seq<u8> {
    let body = body_bytes(inst.result_type, inst.result_id, inst.operands);
    word_bytes((0x1_0000 * (1 + body.len() / 4) + inst.class.opcode) as Word) + body
}

/// Whether the result type, if there is one, is the first logical operand, the
/// result id, if there is one, the next, and neither can occur more than once.
pub open spec fn results_come_first(slots: Seq<LogicalOperand>) -> bool {
    forall|k: int|
        0 <= k < slots.len() ==> {
            let slot = #[trigger] slots[k];
            &&& slot.kind == OperandKind::IdResultType ==> k == 0 && slot.quantifier
                != OperandQuantifier::ZeroOrMore
            &&& slot.kind == OperandKind::IdResult ==> slot.quantifier
                != OperandQuantifier::ZeroOrMore && (k == 0 || k == 1 && slots[0].kind
                == OperandKind::IdResultType)
        }
}

/// What was read, as bytes.
pub open spec fn span(bytes: Seq<u8>, at: Cursor, rest: Cursor) -> Seq<u8> {
    bytes.subrange(at.offset as int, rest.offset as int)
}

pub proof fn lemma_spans_join(bytes: Seq<u8>, at: Cursor, mid: Cursor, rest: Cursor)
    requires
        at.offset <= mid.offset <= rest.offset <= bytes.len(),
    ensures
        span(bytes, at, rest) == span(bytes, at, mid) + span(bytes, mid, rest),
{
    assert(span(bytes, at, rest) =~= span(bytes, at, mid) + span(bytes, mid, rest));
}

pub proof fn lemma_operands_push(operands: Seq<OperandView>, operand: OperandView)
    ensures
        operands_bytes(operands.push(operand)) == operands_bytes(operands) + operand_bytes(operand),
{
    assert(operands.push(operand).drop_last() =~= operands);
}

pub proof fn lemma_operands_concat(first: Seq<OperandView>, second: Seq<OperandView>)
    ensures
        operands_bytes(first + second) == operands_bytes(first) + operands_bytes(second),
    decreases second.len(),
{
    if second.len() == 0 {
        assert(first + second =~= first);
        assert(operands_bytes(first) + Seq::<u8>::empty() =~= operands_bytes(first));
    } else {
        lemma_operands_concat(first, second.drop_last());
        assert((first + second).drop_last() =~= first + second.drop_last());
        assert(operands_bytes(first) + (operands_bytes(second.drop_last()) + operand_bytes(
            second.last(),
        )) =~= operands_bytes(first) + operands_bytes(second.drop_last()) + operand_bytes(
            second.last(),
        ));
    }
}

proof fn lemma_word_kept(bytes: Seq<u8>, at: Cursor)
    ensures
        read_word(bytes, at).result matches Ok(word) ==> span(bytes, at, read_word(bytes, at).rest)
            == word_bytes(word),
{
    let word = read_word(bytes, at);
    if let Ok(value) = word.result {
        law_word_bytes(bytes, at.offset as int, value);
    }
}

proof fn lemma_halves(low: Word, high: Word)
    ensures
        ({
            let value = (low + 0x1_0000_0000 * high) as u64;
            (value % 0x1_0000_0000) as Word == low && (value / 0x1_0000_0000) as Word == high
        }),
{
}

#[verifier::rlimit(30)]
proof fn lemma_wide_kept(bytes: Seq<u8>, at: Cursor)
    ensures
        read_int64(bytes, at).result matches Ok(value) ==> span(
            bytes,
            at,
            read_int64(bytes, at).rest,
        ) == wide_bytes(value),
{
    if let Ok(value) = read_int64(bytes, at).result {
        let low = read_word(bytes, at);
        let high = read_word(bytes, low.rest);
        let low_word = low.result->Ok_0;
        let high_word = high.result->Ok_0;
        lemma_word_kept(bytes, at);
        lemma_word_kept(bytes, low.rest);
        lemma_spans_join(bytes, at, low.rest, high.rest);
        lemma_halves(low_word, high_word);
        assert(wide_bytes(value) == word_bytes(low_word) + word_bytes(high_word));
    }
}

pub proof fn lemma_trim(raw: Seq<u8>)
    ensures
        trim_nul(raw).len() <= raw.len(),
        raw == trim_nul(raw) + Seq::new((raw.len() - trim_nul(raw).len()) as nat, |i: int| 0u8),
        raw.len() > 0 && raw.last() == 0 ==> trim_nul(raw).len() < raw.len(),
        trim_nul(raw).len() > 0 ==> trim_nul(raw).last() != 0,
        forall|i: int|
            0 <= i < raw.len() && #[trigger] raw[i] != 0 ==> i < trim_nul(raw).len(),
    decreases raw.len(),
{
    let trimmed = trim_nul(raw);
    if raw.len() > 0 && raw.last() == 0 {
        let shorter = raw.drop_last();
        lemma_trim(shorter);
        assert(raw =~= shorter.push(0));
        assert forall|i: int| 0 <= i < raw.len() && #[trigger] raw[i] != 0 implies i
            < trimmed.len() by {
            assert(shorter[i] == raw[i]);
        }
    }
    assert(raw =~= trimmed + Seq::new((raw.len() - trimmed.len()) as nat, |i: int| 0u8));
}

/// No word of a string but the last ends with a nul byte.
pub proof fn lemma_words_go_on(bytes: Seq<u8>, at: Cursor)
    ensures
        ({
            let words = skip_string(bytes, at);
            words.result is Ok ==> {
                &&& at.offset + 4 <= words.rest.offset <= bytes.len()
                &&& (words.rest.offset - at.offset) % 4 == 0
                &&& bytes[words.rest.offset - 1] == 0
                &&& forall|i: int|
                    at.offset <= i < words.rest.offset - 4 && (i - at.offset) % 4 == 3
                        ==> #[trigger] bytes[i] != 0
            }
        }),
    decreases bytes.len() - at.offset,
{
    let word = read_word(bytes, at);
    if word.result is Ok && bytes[at.offset as int + 3] != 0 {
        lemma_words_go_on(bytes, word.rest);
        let words = skip_string(bytes, at);
        if words.result is Ok {
            assert forall|i: int|
                at.offset <= i < words.rest.offset - 4 && (i - at.offset) % 4
                    == 3 implies #[trigger] bytes[i] != 0 by {
                if i >= at.offset + 4 {
                    assert((i - word.rest.offset) % 4 == 3);
                }
            }
        }
    }
}

#[verifier::rlimit(50)]
pub proof fn lemma_string_kept(bytes: Seq<u8>, at: Cursor)
    ensures
        read_string(bytes, at).result matches Ok(text) ==> span(
            bytes,
            at,
            read_string(bytes, at).rest,
        ) == string_bytes(text),
{
    let reading = read_string(bytes, at);
    if let Ok(text) = reading.result {
        lemma_words_go_on(bytes, at);
        let raw = span(bytes, at, reading.rest);
        let trimmed = trim_nul(raw);
        lemma_trim(raw);
        decode_utf8_encode_utf8(trimmed);
        assert(raw.last() == bytes[reading.rest.offset - 1]);
        if raw.len() >= 8 {
            assert((reading.rest.offset - 5 - at.offset) % 4 == 3);
            assert(raw[raw.len() - 5] == bytes[reading.rest.offset - 5]);
        }
        assert(raw.len() - 4 <= trimmed.len() < raw.len());
        assert(raw =~= string_bytes(text));
    }
}

pub proof fn lemma_basic_kept(grammar: Grammar, bytes: Seq<u8>, kind: BasicKind, at: Cursor)
    ensures
        read_basic(grammar, bytes, kind, at).result matches Ok(operand) ==> span(
            bytes,
            at,
            read_basic(grammar, bytes, kind, at).rest,
        ) == operand_bytes(operand),
{
    lemma_word_kept(bytes, at);
    lemma_string_kept(bytes, at);
}

proof fn lemma_each_kept(
    grammar: Grammar,
    bytes: Seq<u8>,
    kinds: Seq<BasicKind>,
    k: int,
    operands: Seq<OperandView>,
    at: Cursor,
)
    requires
        at.offset <= bytes.len(),
    ensures
        ({
            let each = read_each(grammar, bytes, kinds, k, operands, at);
            each.result matches Ok(all) ==> operands_bytes(all) == operands_bytes(operands) + span(
                bytes,
                at,
                each.rest,
            )
        }),
    decreases kinds.len() - k,
{
    let each = read_each(grammar, bytes, kinds, k, operands, at);
    if 0 <= k < kinds.len() {
        if each.result is Ok {
            let next = read_basic(grammar, bytes, kinds[k], at);
            let operand = next.result->Ok_0;
            let longer = operands.push(operand);
            lemma_basic_onward(grammar, bytes, kinds[k], at);
            lemma_each_onward(grammar, bytes, kinds, k + 1, longer, next.rest);
            lemma_basic_kept(grammar, bytes, kinds[k], at);
            lemma_operands_push(operands, operand);
            lemma_each_kept(grammar, bytes, kinds, k + 1, longer, next.rest);
            lemma_spans_join(bytes, at, next.rest, each.rest);
            assert(operands_bytes(longer) + span(bytes, next.rest, each.rest) =~= operands_bytes(
                operands,
            ) + span(bytes, at, each.rest));
        }
    } else {
        assert(operands_bytes(operands) + span(bytes, at, at) =~= operands_bytes(operands));
    }
}

proof fn lemma_operand_kept(grammar: Grammar, bytes: Seq<u8>, kind: OperandKind, at: Cursor)
    requires
        at.offset <= bytes.len(),
    ensures
        read_operand(grammar, bytes, kind, at).result matches Ok(operands) ==> operands_bytes(
            operands,
        ) == span(bytes, at, read_operand(grammar, bytes, kind, at).rest),
{
    let whole = read_operand(grammar, bytes, kind, at);
    if whole.result is Ok {
        match kind {
            OperandKind::Basic(BasicKind::Enumerant(kind)) => {
                let value = read_enumerant(grammar, bytes, kind, at);
                let word = value.result->Ok_0;
                let kinds = enumerant_parameters(grammar, kind, word);
                let operand = OperandView::Enumerant(kind, word);
                let operands = seq![operand];
                lemma_word_kept(bytes, at);
                assert(operands =~= Seq::<OperandView>::empty().push(operand));
                lemma_operands_push(Seq::empty(), operand);
                assert(operands_bytes(operands) =~= word_bytes(word));
                lemma_each_onward(grammar, bytes, kinds, 0, operands, value.rest);
                lemma_each_kept(grammar, bytes, kinds, 0, operands, value.rest);
                lemma_spans_join(bytes, at, value.rest, whole.rest);
            },
            _ => {
                lemma_each_kept(grammar, bytes, components(kind), 0, Seq::empty(), at);
                assert(Seq::<u8>::empty() + span(bytes, at, whole.rest) =~= span(
                    bytes,
                    at,
                    whole.rest,
                ));
            },
        }
    }
}

proof fn lemma_ids_kept(
    bytes: Seq<u8>,
    slots: Seq<LogicalOperand>,
    k: int,
    operands: Seq<OperandView>,
    at: Cursor,
)
    requires
        at.offset <= bytes.len(),
    ensures
        ({
            let ids = read_ids(bytes, slots, k, operands, at);
            ids.result matches Ok(all) ==> operands_bytes(all) == operands_bytes(operands) + span(
                bytes,
                at,
                ids.rest,
            )
        }),
    decreases slots.len() - k,
{
    let ids = read_ids(bytes, slots, k, operands, at);
    if 0 <= k < slots.len() {
        if slots[k].kind == OperandKind::Basic(BasicKind::IdRef) {
            if ids.result is Ok {
                let id = read_word(bytes, at);
                let operand = OperandView::IdRef(id.result->Ok_0);
                let longer = operands.push(operand);
                lemma_ids_onward(bytes, slots, k + 1, longer, id.rest);
                lemma_word_kept(bytes, at);
                lemma_operands_push(operands, operand);
                lemma_ids_kept(bytes, slots, k + 1, longer, id.rest);
                lemma_spans_join(bytes, at, id.rest, ids.rest);
                assert(operands_bytes(longer) + span(bytes, id.rest, ids.rest) =~= operands_bytes(
                    operands,
                ) + span(bytes, at, ids.rest));
            }
        } else {
            lemma_ids_kept(bytes, slots, k + 1, operands, at);
        }
    } else {
        assert(operands_bytes(operands) + span(bytes, at, at) =~= operands_bytes(operands));
    }
}

/// The instruction that is found for an opcode has that opcode.
pub proof fn lemma_instruction_has_opcode(grammar: Grammar, code: u16)
    ensures
        grammar.instruction(code) matches Some(instruction) ==> instruction.class.opcode == code,
{
    lemma_first_opcode(grammar.instructions(), code, 0);
}

proof fn lemma_first_opcode(instructions: Seq<InstructionGrammar>, code: u16, from: int)
    ensures
        first_opcode(instructions, code, from) matches Some(k) ==> 0 <= k < instructions.len()
            && instructions[k].class.opcode == code,
    decreases instructions.len() - from,
{
    if 0 <= from < instructions.len() && instructions[from].class.opcode != code {
        lemma_first_opcode(instructions, code, from + 1);
    }
}

proof fn lemma_literal_kept<E>(cx: Context, type_id: Word, at: Cursor)
    ensures
        read_literal::<E>(cx, type_id, at).result matches Ok(operand) ==> operand_bytes(operand)
            == span(cx.bytes, at, read_literal::<E>(cx, type_id, at).rest),
{
    lemma_word_kept(cx.bytes, at);
    lemma_wide_kept(cx.bytes, at);
}

proof fn lemma_operation_kept<E>(cx: Context, at: Cursor)
    requires
        read_word(cx.bytes, at).result matches Ok(number) ==> number < 0x1_0000,
    ensures
        read_spec_constant_op::<E>(cx, at).result matches Ok(operands) ==> operands_bytes(operands)
            == span(cx.bytes, at, read_spec_constant_op::<E>(cx, at).rest),
{
    let parse = read_spec_constant_op::<E>(cx, at);
    if parse.result is Ok {
        let number = read_word(cx.bytes, at);
        let value = number.result->Ok_0;
        let operation = cx.grammar.instruction((value % 0x1_0000) as u16)->0;
        lemma_instruction_has_opcode(cx.grammar, (value % 0x1_0000) as u16);
        let operand = OperandView::LiteralSpecConstantOpInteger(operation.class.opcode);
        let operands = seq![operand];
        assert(operands =~= Seq::<OperandView>::empty().push(operand));
        lemma_operands_push(Seq::empty(), operand);
        lemma_word_kept(cx.bytes, at);
        assert(operands_bytes(operands) =~= word_bytes(value));
        lemma_ids_onward(cx.bytes, operation.operands@, 0, operands, number.rest);
        lemma_ids_kept(cx.bytes, operation.operands@, 0, operands, number.rest);
        lemma_spans_join(cx.bytes, at, number.rest, parse.rest);
    }
}

/// The bytes of what has been read of an instruction.
pub open spec fn draft_bytes(draft: Draft) -> Seq<u8> {
    body_bytes(draft.result_type, draft.result_id, draft.operands)
}

/// Whether nothing has been read yet that belongs behind what comes next.
pub open spec fn is_ready(draft: Draft, kind: OperandKind) -> bool {
    &&& kind == OperandKind::IdResultType ==> draft.result_type is None && draft.result_id is None
        && draft.operands.len() == 0
    &&& kind == OperandKind::IdResult ==> draft.result_id is None && draft.operands.len() == 0
}

#[verifier::rlimit(50)]
pub proof fn lemma_slot_kept<E>(cx: Context, kind: OperandKind, draft: Draft, at: Cursor)
    requires
        at.offset <= cx.bytes.len(),
        is_ready(draft, kind),
        kind == OperandKind::LiteralSpecConstantOpInteger ==> (read_word(
            cx.bytes,
            at,
        ).result matches Ok(number) ==> number < 0x1_0000),
    ensures
        ({
            let slot = read_slot::<E>(cx, kind, draft, at);
            slot.result matches Ok(longer) ==> draft_bytes(longer) == draft_bytes(draft) + span(
                cx.bytes,
                at,
                slot.rest,
            )
        }),
{
    reveal(read_slot);
    let slot = read_slot::<E>(cx, kind, draft, at);
    if let Ok(longer) = slot.result {
        let read = span(cx.bytes, at, slot.rest);
        match kind {
            OperandKind::IdResultType | OperandKind::IdResult => {
                lemma_word_kept(cx.bytes, at);
                assert(operands_bytes(draft.operands) =~= Seq::empty());
            },
            OperandKind::LiteralContextDependentNumber => {
                let type_id = draft.result_type->0;
                lemma_literal_kept::<E>(cx, type_id, at);
                lemma_operands_push(
                    draft.operands,
                    read_literal::<E>(cx, type_id, at).result->Ok_0,
                );
            },
            OperandKind::LiteralSpecConstantOpInteger => {
                lemma_operation_kept::<E>(cx, at);
                lemma_operands_concat(
                    draft.operands,
                    read_spec_constant_op::<E>(cx, at).result->Ok_0,
                );
            },
            _ => {
                lemma_operand_kept(cx.grammar, cx.bytes, kind, at);
                lemma_operands_concat(
                    draft.operands,
                    read_operand(cx.grammar, cx.bytes, kind, at).result->Ok_0,
                );
            },
        }
        assert(draft_bytes(longer) =~= draft_bytes(draft) + read);
    }
}

/// Whether every word that an operation of an `OpSpecConstantOp` is read off is an
/// opcode as a whole, and not only in its low half.
pub open spec fn operations_are_whole<E>(
    cx: Context,
    slots: Seq<LogicalOperand>,
    k: int,
    draft: Draft,
    at: Cursor,
) -> bool
    decreases slots.len() - k, cx.bytes.len() - at.offset,
{
    if k < 0 || k >= slots.len() || at.limit == Some(0nat) {
        true
    } else {
        let slot = read_slot::<E>(cx, slots[k].kind, draft, at);
        proof {
            lemma_slot_onward::<E>(cx, slots[k].kind, draft, at);
        }
        &&& slots[k].kind == OperandKind::LiteralSpecConstantOpInteger ==> (read_word(
            cx.bytes,
            at,
        ).result matches Ok(number) ==> number < 0x1_0000)
        &&& match slot.result {
            Ok(longer) => match slots[k].quantifier {
                OperandQuantifier::ZeroOrMore => operations_are_whole::<E>(
                    cx,
                    slots,
                    k,
                    longer,
                    slot.rest,
                ),
                _ => operations_are_whole::<E>(cx, slots, k + 1, longer, slot.rest),
            },
            Err(_) => true,
        }
    }
}

proof fn lemma_slots_kept<E>(
    cx: Context,
    slots: Seq<LogicalOperand>,
    k: int,
    draft: Draft,
    at: Cursor,
)
    requires
        0 <= k,
        at.offset <= cx.bytes.len(),
        results_come_first(slots),
        k < slots.len() ==> is_ready(draft, slots[k].kind),
        operations_are_whole::<E>(cx, slots, k, draft, at),
    ensures
        ({
            let parse = read_slots::<E>(cx, slots, k, draft, at);
            parse.result matches Ok(longer) ==> draft_bytes(longer) == draft_bytes(draft) + span(
                cx.bytes,
                at,
                parse.rest,
            )
        }),
    decreases slots.len() - k, cx.bytes.len() - at.offset,
{
    let parse = read_slots::<E>(cx, slots, k, draft, at);
    if parse.result is Ok {
        if k < slots.len() && at.limit != Some(0nat) {
            let slot = read_slot::<E>(cx, slots[k].kind, draft, at);
            lemma_slot_onward::<E>(cx, slots[k].kind, draft, at);
            lemma_slot_kept::<E>(cx, slots[k].kind, draft, at);
            let longer = slot.result->Ok_0;
            let next = if slots[k].quantifier == OperandQuantifier::ZeroOrMore {
                k
            } else {
                k + 1
            };
            if next < slots.len() {
                assert(is_ready(longer, slots[next].kind)) by {
                    reveal(read_slot);
                }
            }
            lemma_slots_onward::<E>(cx, slots, next, longer, slot.rest);
            lemma_slots_kept::<E>(cx, slots, next, longer, slot.rest);
            lemma_spans_join(cx.bytes, at, slot.rest, parse.rest);
            assert(draft_bytes(longer) + span(cx.bytes, slot.rest, parse.rest) =~= draft_bytes(
                draft,
            ) + span(cx.bytes, at, parse.rest));
        } else {
            assert(draft_bytes(draft) + span(cx.bytes, at, at) =~= draft_bytes(draft));
        }
    }
}

/// Whether all of an instruction can be had from what is read of it: its results
/// come first, and the operation of an `OpSpecConstantOp` takes no more than half a
/// word.
pub open spec fn is_kept_whole<E>(cx: Context, at: Cursor) -> bool {
    read_word(cx.bytes, at).result matches Ok(word) ==> {
        cx.grammar.instruction(opcode(word)) matches Some(instruction) ==> {
            &&& results_come_first(instruction.operands@)
            &&& operations_are_whole::<E>(
                cx,
                instruction.operands@,
                0,
                empty_draft(),
                Cursor { offset: at.offset + 4, limit: Some((word_count(word) - 1) as nat) },
            )
        }
    }
}

/// Parsing loses nothing: the bytes of an instruction can be had from what is read
/// of it.
#[verifier::rlimit(50)]
pub proof fn law_parsing_loses_nothing<E>(cx: Context, at: Cursor)
    requires
        at.limit is None,
        is_kept_whole::<E>(cx, at),
    ensures
        ({
            let parse = read_inst::<E>(cx, at);
            parse.result matches Ok(inst) ==> cx.bytes.subrange(
                at.offset as int,
                parse.rest.offset as int,
            ) == instruction_bytes(inst)
        }),
{
    let parse = read_inst::<E>(cx, at);
    if let Ok(inst) = parse.result {
        law_word_count_is_used_up::<E>(cx, at);
        reveal(read_inst);
        let first = read_word(cx.bytes, at);
        let word = first.result->Ok_0;
        let instruction = cx.grammar.instruction(opcode(word))->0;
        let start = Cursor {
            offset: first.rest.offset,
            limit: Some((word_count(word) - 1) as nat),
        };
        lemma_instruction_has_opcode(cx.grammar, opcode(word));
        lemma_slots_kept::<E>(cx, instruction.operands@, 0, empty_draft(), start);
        lemma_word_kept(cx.bytes, at);
        lemma_spans_join(cx.bytes, at, first.rest, parse.rest);
        let body = body_bytes(inst.result_type, inst.result_id, inst.operands);
        assert(draft_bytes(empty_draft()) =~= Seq::empty());
        assert(body =~= span(cx.bytes, first.rest, parse.rest));
        assert(1 + body.len() / 4 == word_count(word));
        assert(0x1_0000 * (1 + body.len() / 4) + inst.class.opcode == word);
    }
}

/// What has been read can be written and read again: wherever the bytes of an
/// instruction stand that was read somewhere, the same instruction is read, if the
/// grammar and the numeric types known so far are the same.
pub proof fn law_instruction_round_trip<E>(
    cx: Context,
    at: Cursor,
    inst: InstructionView,
    other: Context,
    to: nat,
)
    requires
        at.limit is None,
        read_inst::<E>(cx, at).result == Ok::<InstructionView, State<E>>(inst),
        is_kept_whole::<E>(cx, at),
        same_rules(cx, other),
        to + instruction_bytes(inst).len() <= other.bytes.len(),
        other.bytes.subrange(to as int, (to + instruction_bytes(inst).len()) as int)
            == instruction_bytes(inst),
    ensures
        ({
            let there = read_inst::<E>(other, Cursor { offset: to, limit: None });
            &&& there.result == Ok::<InstructionView, State<E>>(inst)
            &&& there.rest.offset == to + instruction_bytes(inst).len()
        }),
{
    let parse = read_inst::<E>(cx, at);
    law_word_count_is_used_up::<E>(cx, at);
    law_parsing_loses_nothing::<E>(cx, at);
    assert(instruction_bytes(inst).len() == parse.rest.offset - at.offset);
    law_instruction_is_local::<E>(cx, at, other, to);
}

} // verus!
