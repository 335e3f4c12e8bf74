//! Whatever conforms to the grammar is parsed.

use crate::decoder::{
    read_enumerant, read_int64, read_string, read_word, skip_string, trim_nul, Cursor, Reading,
};
use crate::grammar::{BasicKind, Grammar, LogicalOperand, OperandKind};
use crate::laws::conformance::{
    conforms, has_share, is_delimited, is_divided, is_of_kind, is_of_type, joined,
    law_parsed_instructions_conform, lemma_place_grows, lemma_share_or_before, may_end,
    number_of_ids, place, stands_for,
};
use crate::laws::encoding::{
    body_bytes, id_bytes, instruction_bytes, is_kept_whole, law_parsing_loses_nothing,
    lemma_instruction_has_opcode, lemma_operands_concat, lemma_operands_push, operand_bytes,
    operands_bytes, results_come_first, string_bytes, wide_bytes,
};
use crate::laws::header::law_word_bytes;
use crate::mr::{InstructionView, OperandView};
use crate::spirv::{word_bytes, Word};
use crate::state::State;
use crate::syntax::{
    components, empty_draft, enumerant_parameters, law_word_count_is_used_up, opcode, read_basic,
    read_each, read_ids, read_inst, read_literal, read_operand, read_slot, read_slots,
    read_spec_constant_op, word_count, Context, Draft, Parse,
};
use crate::tracker::Type;
use vstd::prelude::*;
use vstd::utf8::{encode_utf8, encode_utf8_decode_utf8, encode_utf8_valid_utf8};

verus! {

/// Whether a binary has these bytes at an offset.
pub open spec fn holds(bytes: Seq<u8>, from: nat, data: Seq<u8>) -> bool {
    &&& from + data.len() <= bytes.len()
    &&& bytes.subrange(from as int, (from + data.len()) as int) == data
}

/// Whether the limit allows this many words.
pub open spec fn room(at: Cursor, n: nat) -> bool {
    at.limit matches Some(left) ==> n <= left
}

/// The cursor behind this many words.
pub open spec fn past(at: Cursor, n: nat) -> Cursor {
    Cursor {
        offset: at.offset + 4 * n,
        limit: match at.limit {
            Some(left) => Some((left - n) as nat),
            None => None,
        },
    }
}

pub proof fn lemma_holds_split(bytes: Seq<u8>, from: nat, first: Seq<u8>, second: Seq<u8>)
    requires
        holds(bytes, from, first + second),
    ensures
        holds(bytes, from, first),
        holds(bytes, from + first.len(), second),
{
    let whole = bytes.subrange(from as int, (from + first.len() + second.len()) as int);
    assert(whole == first + second);
    assert(first =~= whole.take(first.len() as int));
    assert(second =~= whole.skip(first.len() as int));
    assert(bytes.subrange(from as int, (from + first.len()) as int) =~= first);
    assert(bytes.subrange(
        (from + first.len()) as int,
        (from + first.len() + second.len()) as int,
    ) =~= second);
}

pub proof fn lemma_operand_size(operand: OperandView)
    ensures
        operand_bytes(operand).len() % 4 == 0,
        operand_bytes(operand).len() >= 4,
{
    if let OperandView::LiteralString(text) = operand {
        let n = encode_utf8(text).len();
        assert((n + (4 - n % 4)) % 4 == 0);
    }
}

pub proof fn lemma_operands_size(operands: Seq<OperandView>)
    ensures
        operands_bytes(operands).len() % 4 == 0,
        operands_bytes(operands).len() >= 4 * operands.len(),
    decreases operands.len(),
{
    if operands.len() > 0 {
        lemma_operands_size(operands.drop_last());
        lemma_operand_size(operands.last());
    }
}

proof fn lemma_operands_first(operands: Seq<OperandView>)
    requires
        operands.len() > 0,
    ensures
        operands_bytes(operands) == operand_bytes(operands[0]) + operands_bytes(operands.skip(1)),
{
    let first = seq![operands[0]];
    assert(operands =~= first + operands.skip(1));
    lemma_operands_concat(first, operands.skip(1));
    assert(first =~= Seq::<OperandView>::empty().push(operands[0]));
    lemma_operands_push(Seq::empty(), operands[0]);
    assert(operands_bytes(first) =~= operand_bytes(operands[0]));
}

proof fn lemma_word_found(bytes: Seq<u8>, at: Cursor, value: Word)
    requires
        holds(bytes, at.offset, word_bytes(value)),
        room(at, 1),
    ensures
        read_word(bytes, at) == (Reading { result: Ok(value), rest: past(at, 1) }),
{
    law_word_bytes(bytes, at.offset as int, value);
}

proof fn lemma_wide_found(bytes: Seq<u8>, at: Cursor, value: u64)
    requires
        holds(bytes, at.offset, wide_bytes(value)),
        room(at, 2),
    ensures
        read_int64(bytes, at) == (Reading { result: Ok(value), rest: past(at, 2) }),
{
    let low = (value % 0x1_0000_0000) as Word;
    let high = (value / 0x1_0000_0000) as Word;
    lemma_holds_split(bytes, at.offset, word_bytes(low), word_bytes(high));
    lemma_word_found(bytes, at, low);
    lemma_word_found(bytes, past(at, 1), high);
}

pub proof fn lemma_string_skipped(bytes: Seq<u8>, at: Cursor, n: nat)
    requires
        n >= 1,
        at.offset + 4 * n <= bytes.len(),
        bytes[at.offset + 4 * n - 1] == 0,
        forall|i: int|
            at.offset <= i < at.offset + 4 * n - 4 && (i - at.offset) % 4 == 3
                ==> #[trigger] bytes[i] != 0,
        room(at, n),
    ensures
        skip_string(bytes, at) == (Reading::<()> { result: Ok(()), rest: past(at, n) }),
    decreases n,
{
    if n >= 2 {
        assert((at.offset + 3 - at.offset) % 4 == 3);
        assert(bytes[at.offset as int + 3] != 0);
        let next = past(at, 1);
        assert forall|i: int|
            next.offset <= i < next.offset + 4 * (n - 1) - 4 && (i - next.offset) % 4
                == 3 implies #[trigger] bytes[i] != 0 by {
            assert((i - at.offset) % 4 == 3);
        }
        lemma_string_skipped(bytes, next, (n - 1) as nat);
    }
}

proof fn lemma_filling_trimmed(data: Seq<u8>, n: nat)
    requires
        data.len() > 0 ==> data.last() != 0,
    ensures
        trim_nul(data + Seq::new(n, |i: int| 0u8)) == data,
    decreases n,
{
    let filled = data + Seq::new(n, |i: int| 0u8);
    if n == 0 {
        assert(filled =~= data);
    } else {
        lemma_filling_trimmed(data, (n - 1) as nat);
        assert(filled.drop_last() =~= data + Seq::new((n - 1) as nat, |i: int| 0u8));
    }
}

#[verifier::rlimit(30)]
pub proof fn lemma_string_found(bytes: Seq<u8>, at: Cursor, text: Seq<char>)
    requires
        is_delimited(text),
        holds(bytes, at.offset, string_bytes(text)),
        room(at, string_bytes(text).len() / 4),
    ensures
        read_string(bytes, at) == (Reading {
            result: Ok(text),
            rest: past(at, string_bytes(text).len() / 4),
        }),
{
    let encoded = encode_utf8(text);
    let whole = string_bytes(text);
    let n = whole.len() / 4;
    lemma_operand_size(OperandView::LiteralString(text));
    assert(whole.len() == 4 * n);
    assert forall|i: int| at.offset <= i < at.offset + 4 * n implies #[trigger] bytes[i]
        == whole[i - at.offset] by {
        assert(bytes.subrange(at.offset as int, (at.offset + whole.len()) as int)[i - at.offset]
            == whole[i - at.offset]);
    }
    assert(whole.last() == 0);
    assert forall|i: int|
        at.offset <= i < at.offset + 4 * n - 4 && (i - at.offset) % 4
            == 3 implies #[trigger] bytes[i] != 0 by {
        assert(encoded[i - at.offset] != 0);
    }
    lemma_string_skipped(bytes, at, n);
    lemma_filling_trimmed(encoded, (4 - encoded.len() % 4) as nat);
    encode_utf8_valid_utf8(text);
    encode_utf8_decode_utf8(text);
}

proof fn lemma_basic_found(
    grammar: Grammar,
    bytes: Seq<u8>,
    kind: BasicKind,
    at: Cursor,
    operand: OperandView,
)
    requires
        is_of_kind(grammar, kind, operand),
        holds(bytes, at.offset, operand_bytes(operand)),
        room(at, operand_bytes(operand).len() / 4),
    ensures
        read_basic(grammar, bytes, kind, at) == (Reading {
            result: Ok(operand),
            rest: past(at, operand_bytes(operand).len() / 4),
        }),
{
    match operand {
        OperandView::IdRef(value) => lemma_word_found(bytes, at, value),
        OperandView::IdScope(value) => lemma_word_found(bytes, at, value),
        OperandView::IdMemorySemantics(value) => lemma_word_found(bytes, at, value),
        OperandView::LiteralInt32(value) => lemma_word_found(bytes, at, value),
        OperandView::LiteralExtInstInteger(value) => lemma_word_found(bytes, at, value),
        OperandView::LiteralString(text) => lemma_string_found(bytes, at, text),
        OperandView::Enumerant(_, value) => lemma_word_found(bytes, at, value),
        _ => {},
    }
}

proof fn lemma_each_found(
    grammar: Grammar,
    bytes: Seq<u8>,
    kinds: Seq<BasicKind>,
    k: int,
    done: Seq<OperandView>,
    at: Cursor,
    more: Seq<OperandView>,
)
    requires
        0 <= k <= kinds.len(),
        more.len() == kinds.len() - k,
        forall|i: int|
            0 <= i < more.len() ==> is_of_kind(grammar, kinds[k + i], #[trigger] more[i]),
        holds(bytes, at.offset, operands_bytes(more)),
        room(at, operands_bytes(more).len() / 4),
    ensures
        read_each(grammar, bytes, kinds, k, done, at) == (Reading {
            result: Ok(done + more),
            rest: past(at, operands_bytes(more).len() / 4),
        }),
    decreases kinds.len() - k,
{
    if k < kinds.len() {
        let operand = more[0];
        let later = more.skip(1);
        lemma_operands_first(more);
        lemma_operand_size(operand);
        lemma_operands_size(later);
        lemma_holds_split(bytes, at.offset, operand_bytes(operand), operands_bytes(later));
        assert(is_of_kind(grammar, kinds[k + 0], operand));
        lemma_basic_found(grammar, bytes, kinds[k], at, operand);
        let next = past(at, operand_bytes(operand).len() / 4);
        assert forall|i: int| 0 <= i < later.len() implies is_of_kind(
            grammar,
            kinds[k + 1 + i],
            #[trigger] later[i],
        ) by {
            assert(is_of_kind(grammar, kinds[k + (i + 1)], more[i + 1]));
        }
        lemma_each_found(grammar, bytes, kinds, k + 1, done.push(operand), next, later);
        assert(done.push(operand) + later =~= done + more);
    } else {
        assert(done + more =~= done);
    }
}

proof fn lemma_ids_found(
    bytes: Seq<u8>,
    slots: Seq<LogicalOperand>,
    k: int,
    done: Seq<OperandView>,
    at: Cursor,
    more: Seq<OperandView>,
)
    requires
        more.len() == number_of_ids(slots, k),
        forall|i: int| 0 <= i < more.len() ==> (#[trigger] more[i]) is IdRef,
        holds(bytes, at.offset, operands_bytes(more)),
        room(at, operands_bytes(more).len() / 4),
    ensures
        read_ids(bytes, slots, k, done, at) == (Reading {
            result: Ok(done + more),
            rest: past(at, operands_bytes(more).len() / 4),
        }),
    decreases slots.len() - k,
{
    if 0 <= k < slots.len() {
        if slots[k].kind == OperandKind::Basic(BasicKind::IdRef) {
            let operand = more[0];
            let later = more.skip(1);
            lemma_operands_first(more);
            lemma_operands_size(later);
            lemma_holds_split(bytes, at.offset, operand_bytes(operand), operands_bytes(later));
            lemma_word_found(bytes, at, operand->IdRef_0);
            lemma_ids_found(bytes, slots, k + 1, done.push(operand), past(at, 1), later);
            assert(done.push(operand) + later =~= done + more);
        } else {
            lemma_ids_found(bytes, slots, k + 1, done, at, more);
        }
    } else {
        assert(done + more =~= done);
    }
}

proof fn lemma_operand_found(
    grammar: Grammar,
    bytes: Seq<u8>,
    kind: OperandKind,
    at: Cursor,
    operands: Seq<OperandView>,
)
    requires
        !(kind is LiteralSpecConstantOpInteger),
        !(kind is LiteralContextDependentNumber),
        !(kind is IdResultType),
        !(kind is IdResult),
        stands_for(grammar, Map::empty(), None, kind, operands),
        holds(bytes, at.offset, operands_bytes(operands)),
        room(at, operands_bytes(operands).len() / 4),
    ensures
        read_operand(grammar, bytes, kind, at) == (Reading {
            result: Ok(operands),
            rest: past(at, operands_bytes(operands).len() / 4),
        }),
{
    match kind {
        OperandKind::Basic(BasicKind::Enumerant(kind)) => {
            let value = operands[0]->Enumerant_1;
            let later = operands.skip(1);
            let first = seq![OperandView::Enumerant(kind, value)];
            lemma_operands_first(operands);
            lemma_operands_size(later);
            lemma_holds_split(bytes, at.offset, operand_bytes(operands[0]), operands_bytes(later));
            lemma_word_found(bytes, at, value);
            assert(read_enumerant(grammar, bytes, kind, at).result is Ok);
            lemma_each_found(
                grammar,
                bytes,
                enumerant_parameters(grammar, kind, value),
                0,
                first,
                past(at, 1),
                later,
            );
            assert(first + later =~= operands);
        },
        _ => {
            let none = Seq::<OperandView>::empty();
            lemma_each_found(grammar, bytes, components(kind), 0, none, at, operands);
            assert(none + operands =~= operands);
        },
    }
}

proof fn lemma_literal_found<E>(cx: Context, type_id: Word, at: Cursor, operand: OperandView)
    requires
        is_of_type(cx.types, type_id, operand),
        holds(cx.bytes, at.offset, operand_bytes(operand)),
        room(at, operand_bytes(operand).len() / 4),
    ensures
        read_literal::<E>(cx, type_id, at) == (Parse::<OperandView, E> {
            result: Ok(operand),
            rest: past(at, operand_bytes(operand).len() / 4),
        }),
{
    match operand {
        OperandView::LiteralInt32(value) => lemma_word_found(cx.bytes, at, value),
        OperandView::LiteralInt64(value) => lemma_wide_found(cx.bytes, at, value),
        OperandView::LiteralFloat32(bits) => lemma_word_found(cx.bytes, at, bits),
        OperandView::LiteralFloat64(bits) => lemma_wide_found(cx.bytes, at, bits),
        _ => {},
    }
}

proof fn lemma_operation_found<E>(cx: Context, at: Cursor, operands: Seq<OperandView>)
    requires
        stands_for(
            cx.grammar,
            cx.types,
            None,
            OperandKind::LiteralSpecConstantOpInteger,
            operands,
        ),
        holds(cx.bytes, at.offset, operands_bytes(operands)),
        room(at, operands_bytes(operands).len() / 4),
    ensures
        read_spec_constant_op::<E>(cx, at) == (Parse::<Seq<OperandView>, E> {
            result: Ok(operands),
            rest: past(at, operands_bytes(operands).len() / 4),
        }),
{
    let code = operands[0]->LiteralSpecConstantOpInteger_0;
    let operation = cx.grammar.instruction(code)->0;
    let later = operands.skip(1);
    let first = seq![OperandView::LiteralSpecConstantOpInteger(operation.class.opcode)];
    lemma_instruction_has_opcode(cx.grammar, code);
    lemma_operands_first(operands);
    lemma_operands_size(later);
    lemma_holds_split(cx.bytes, at.offset, operand_bytes(operands[0]), operands_bytes(later));
    lemma_word_found(cx.bytes, at, code as Word);
    assert((code as Word % 0x1_0000) as u16 == code);
    lemma_ids_found(cx.bytes, operation.operands@, 0, first, past(at, 1), later);
    assert(first + later =~= operands);
}

/// The bytes of what stands for a logical operand.
spec fn share_bytes(
    kind: OperandKind,
    result_type: Option<Word>,
    result_id: Option<Word>,
    share: Seq<OperandView>,
) -> Seq<u8> {
    match kind {
        OperandKind::IdResultType => word_bytes(result_type->0),
        OperandKind::IdResult => word_bytes(result_id->0),
        _ => operands_bytes(share),
    }
}

proof fn lemma_share_size(
    grammar: Grammar,
    types: Map<Word, Type>,
    kind: OperandKind,
    result_type: Option<Word>,
    result_id: Option<Word>,
    share: Seq<OperandView>,
)
    requires
        stands_for(grammar, types, result_type, kind, share),
    ensures
        share_bytes(kind, result_type, result_id, share).len() % 4 == 0,
        share_bytes(kind, result_type, result_id, share).len() >= 4,
{
    lemma_operands_size(share);
}

#[verifier::rlimit(50)]
proof fn lemma_slot_found<E>(
    cx: Context,
    kind: OperandKind,
    draft: Draft,
    at: Cursor,
    result_type: Option<Word>,
    result_id: Option<Word>,
    share: Seq<OperandView>,
)
    requires
        stands_for(cx.grammar, cx.types, result_type, kind, share),
        kind is LiteralContextDependentNumber ==> draft.result_type == result_type,
        holds(cx.bytes, at.offset, share_bytes(kind, result_type, result_id, share)),
        room(at, share_bytes(kind, result_type, result_id, share).len() / 4),
    ensures
        read_slot::<E>(cx, kind, draft, at) == (Parse::<Draft, E> {
            result: Ok(
                Draft {
                    result_type: if kind is IdResultType {
                        Some(result_type->0)
                    } else {
                        draft.result_type
                    },
                    result_id: if kind is IdResult {
                        Some(result_id->0)
                    } else {
                        draft.result_id
                    },
                    operands: draft.operands + share,
                },
            ),
            rest: past(at, share_bytes(kind, result_type, result_id, share).len() / 4),
        }),
{
    reveal(read_slot);
    match kind {
        OperandKind::IdResultType => {
            lemma_word_found(cx.bytes, at, result_type->0);
            assert(draft.operands + share =~= draft.operands);
        },
        OperandKind::IdResult => {
            lemma_word_found(cx.bytes, at, result_id->0);
            assert(draft.operands + share =~= draft.operands);
        },
        OperandKind::LiteralContextDependentNumber => {
            lemma_operands_first(share);
            assert(share.skip(1) =~= Seq::empty());
            assert(operands_bytes(share) =~= operand_bytes(share[0]));
            lemma_literal_found::<E>(cx, result_type->0, at, share[0]);
            assert(draft.operands + share =~= draft.operands.push(share[0]));
        },
        OperandKind::LiteralSpecConstantOpInteger => {
            lemma_operation_found::<E>(cx, at, share);
        },
        _ => {
            lemma_operand_found(cx.grammar, cx.bytes, kind, at, share);
        },
    }
}

/// The bytes of the shares from the `i`-th on.
spec fn shares_bytes(
    slots: Seq<LogicalOperand>,
    result_type: Option<Word>,
    result_id: Option<Word>,
    shares: Seq<Seq<OperandView>>,
    i: int,
) -> Seq<u8>
    decreases shares.len() - i,
{
    if i < 0 || i >= shares.len() {
        Seq::empty()
    } else {
        share_bytes(slots[place(slots, i)].kind, result_type, result_id, shares[i])
            + shares_bytes(slots, result_type, result_id, shares, i + 1)
    }
}

proof fn lemma_shares_size(
    cx: Context,
    slots: Seq<LogicalOperand>,
    result_type: Option<Word>,
    result_id: Option<Word>,
    shares: Seq<Seq<OperandView>>,
    i: int,
)
    requires
        0 <= i,
        is_divided(
            cx.grammar,
            cx.types,
            slots,
            result_type,
            result_id,
            joined(shares),
            shares,
        ),
    ensures
        shares_bytes(slots, result_type, result_id, shares, i).len() % 4 == 0,
    decreases shares.len() - i,
{
    if i < shares.len() {
        lemma_shares_size(cx, slots, result_type, result_id, shares, i + 1);
        lemma_share_size(
            cx.grammar,
            cx.types,
            slots[place(slots, i)].kind,
            result_type,
            result_id,
            shares[i],
        );
    }
}

/// An instruction of which the first `i` shares have been read.
spec fn draft_of(
    slots: Seq<LogicalOperand>,
    result_type: Option<Word>,
    result_id: Option<Word>,
    shares: Seq<Seq<OperandView>>,
    i: nat,
) -> Draft {
    Draft {
        result_type: if has_share(slots, i, OperandKind::IdResultType) {
            result_type
        } else {
            None
        },
        result_id: if has_share(slots, i, OperandKind::IdResult) {
            result_id
        } else {
            None
        },
        operands: joined(shares.take(i as int)),
    }
}

proof fn lemma_draft_grows(
    cx: Context,
    slots: Seq<LogicalOperand>,
    result_type: Option<Word>,
    result_id: Option<Word>,
    shares: Seq<Seq<OperandView>>,
    i: nat,
)
    requires
        i < shares.len(),
        results_come_first(slots),
        is_divided(
            cx.grammar,
            cx.types,
            slots,
            result_type,
            result_id,
            joined(shares),
            shares,
        ),
    ensures
        ({
            let kind = slots[place(slots, i as int)].kind;
            let draft = draft_of(slots, result_type, result_id, shares, i);
            &&& kind is LiteralContextDependentNumber ==> draft.result_type == result_type
            &&& draft_of(slots, result_type, result_id, shares, i + 1) == Draft {
                result_type: if kind is IdResultType {
                    Some(result_type->0)
                } else {
                    draft.result_type
                },
                result_id: if kind is IdResult {
                    Some(result_id->0)
                } else {
                    draft.result_id
                },
                operands: draft.operands + shares[i as int],
            }
        }),
{
    let kind = slots[place(slots, i as int)].kind;
    lemma_share_or_before(slots, i, OperandKind::IdResultType);
    lemma_share_or_before(slots, i, OperandKind::IdResult);
    if kind is IdResultType {
        assert(has_share(slots, shares.len(), OperandKind::IdResultType)) by {
            assert(slots[place(slots, i as int)].kind == OperandKind::IdResultType);
        }
    }
    if kind is IdResult {
        assert(has_share(slots, shares.len(), OperandKind::IdResult)) by {
            assert(slots[place(slots, i as int)].kind == OperandKind::IdResult);
        }
    }
    if kind is LiteralContextDependentNumber && result_type is Some {
        let j = choose|j: int|
            0 <= j < shares.len() && slots[#[trigger] place(slots, j)].kind
                == OperandKind::IdResultType;
        lemma_place_grows(slots, 0, j);
        assert(place(slots, j) == 0);
        assert(slots[place(slots, 0)].kind == OperandKind::IdResultType);
        assert(i > 0);
    }
    assert(shares.take(i as int + 1).drop_last() =~= shares.take(i as int));
}

#[verifier::rlimit(50)]
proof fn lemma_slots_found<E>(
    cx: Context,
    slots: Seq<LogicalOperand>,
    result_type: Option<Word>,
    result_id: Option<Word>,
    shares: Seq<Seq<OperandView>>,
    i: nat,
    at: Cursor,
)
    requires
        i <= shares.len(),
        results_come_first(slots),
        is_divided(
            cx.grammar,
            cx.types,
            slots,
            result_type,
            result_id,
            joined(shares),
            shares,
        ),
        may_end(slots, shares.len()),
        holds(
            cx.bytes,
            at.offset,
            shares_bytes(slots, result_type, result_id, shares, i as int),
        ),
        at.limit == Some(
            shares_bytes(slots, result_type, result_id, shares, i as int).len() / 4,
        ),
    ensures
        read_slots::<E>(
            cx,
            slots,
            place(slots, i as int),
            draft_of(slots, result_type, result_id, shares, i),
            at,
        ) == (Parse::<Draft, E> {
            result: Ok(Draft { result_type, result_id, operands: joined(shares) }),
            rest: Cursor {
                offset: at.offset + shares_bytes(
                    slots,
                    result_type,
                    result_id,
                    shares,
                    i as int,
                ).len(),
                limit: Some(0),
            },
        }),
    decreases shares.len() - i,
{
    let k = place(slots, i as int);
    let draft = draft_of(slots, result_type, result_id, shares, i);
    lemma_place_grows(slots, 0, i as int);
    if i < shares.len() {
        let kind = slots[k].kind;
        let share = share_bytes(kind, result_type, result_id, shares[i as int]);
        let later = shares_bytes(slots, result_type, result_id, shares, i as int + 1);
        lemma_share_size(cx.grammar, cx.types, kind, result_type, result_id, shares[i as int]);
        lemma_shares_size(cx, slots, result_type, result_id, shares, i as int + 1);
        lemma_holds_split(cx.bytes, at.offset, share, later);
        lemma_draft_grows(cx, slots, result_type, result_id, shares, i);
        lemma_slot_found::<E>(cx, kind, draft, at, result_type, result_id, shares[i as int]);
        let next = past(at, share.len() / 4);
        let longer = draft_of(slots, result_type, result_id, shares, i + 1);
        assert(read_slot::<E>(cx, kind, draft, at) == Parse::<Draft, E> {
            result: Ok(longer),
            rest: next,
        });
        lemma_slots_found::<E>(cx, slots, result_type, result_id, shares, i + 1, next);
        lemma_slots_step::<E>(cx, slots, i, draft, at, longer, next);
    } else {
        assert(shares.take(i as int) =~= shares);
    }
}

proof fn lemma_slots_step<E>(
    cx: Context,
    slots: Seq<LogicalOperand>,
    i: nat,
    draft: Draft,
    at: Cursor,
    longer: Draft,
    next: Cursor,
)
    requires
        0 <= place(slots, i as int) < slots.len(),
        at.limit != Some(0nat),
        read_slot::<E>(cx, slots[place(slots, i as int)].kind, draft, at) == (Parse::<Draft, E> {
            result: Ok(longer),
            rest: next,
        }),
    ensures
        read_slots::<E>(cx, slots, place(slots, i as int), draft, at) == read_slots::<E>(
            cx,
            slots,
            place(slots, i as int + 1),
            longer,
            next,
        ),
{
}

proof fn lemma_joined_first(shares: Seq<Seq<OperandView>>)
    requires
        shares.len() > 0,
    ensures
        joined(shares) == shares[0] + joined(shares.skip(1)),
    decreases shares.len(),
{
    if shares.len() == 1 {
        assert(shares.drop_last() =~= Seq::empty());
        assert(shares.skip(1) =~= Seq::empty());
        assert(joined(shares) =~= shares[0] + joined(shares.skip(1)));
    } else {
        lemma_joined_first(shares.drop_last());
        assert(shares.drop_last().skip(1) =~= shares.skip(1).drop_last());
        assert(joined(shares) =~= shares[0] + joined(shares.skip(1)));
    }
}

/// Where no share from the `i`-th on stands for a result, their bytes are those of
/// their operands.
proof fn lemma_plain_shares(
    slots: Seq<LogicalOperand>,
    result_type: Option<Word>,
    result_id: Option<Word>,
    shares: Seq<Seq<OperandView>>,
    i: int,
)
    requires
        0 <= i <= shares.len(),
        forall|j: int|
            i <= j < shares.len() ==> {
                let kind = slots[#[trigger] place(slots, j)].kind;
                !(kind is IdResultType) && !(kind is IdResult)
            },
    ensures
        shares_bytes(slots, result_type, result_id, shares, i) == operands_bytes(
            joined(shares.skip(i)),
        ),
    decreases shares.len() - i,
{
    let tail = shares.skip(i);
    if i < shares.len() {
        lemma_plain_shares(slots, result_type, result_id, shares, i + 1);
        lemma_joined_first(tail);
        assert(tail.skip(1) =~= shares.skip(i + 1));
        lemma_operands_concat(shares[i], joined(shares.skip(i + 1)));
        assert(!(slots[place(slots, i)].kind is IdResult));
    } else {
        assert(tail =~= Seq::empty());
    }
}

/// The bytes of all shares are those of the instruction behind its first word.
#[verifier::rlimit(50)]
proof fn lemma_body(
    cx: Context,
    slots: Seq<LogicalOperand>,
    result_type: Option<Word>,
    result_id: Option<Word>,
    shares: Seq<Seq<OperandView>>,
)
    requires
        results_come_first(slots),
        is_divided(
            cx.grammar,
            cx.types,
            slots,
            result_type,
            result_id,
            joined(shares),
            shares,
        ),
    ensures
        shares_bytes(slots, result_type, result_id, shares, 0) == body_bytes(
            result_type,
            result_id,
            joined(shares),
        ),
{
    let n = shares.len();
    let whole = shares_bytes(slots, result_type, result_id, shares, 0);
    let typed = n >= 1 && slots[0].kind is IdResultType;
    let results: int = if typed {
        if n >= 2 && slots[1].kind is IdResult {
            2
        } else {
            1
        }
    } else if n >= 1 && slots[0].kind is IdResult {
        1
    } else {
        0
    };
    assert forall|j: int| results <= j < n implies {
        let kind = slots[#[trigger] place(slots, j)].kind;
        !(kind is IdResultType) && !(kind is IdResult)
    } by {
        lemma_place_grows(slots, 0, j);
        if j >= 1 {
            lemma_place_grows(slots, 1, j);
        }
    }
    lemma_plain_shares(slots, result_type, result_id, shares, results);
    assert(shares.skip(0) =~= shares);
    if results >= 1 {
        assert(place(slots, 0) == 0);
        assert(stands_for(cx.grammar, cx.types, result_type, slots[0].kind, shares[0]));
        lemma_joined_first(shares);
        assert(joined(shares) =~= joined(shares.skip(1)));
        assert(has_share(slots, n, slots[0].kind)) by {
            assert(slots[place(slots, 0)].kind == slots[0].kind);
        }
    }
    if results == 2 {
        assert(place(slots, 1) == 1);
        assert(stands_for(cx.grammar, cx.types, result_type, slots[1].kind, shares[1]));
        lemma_joined_first(shares.skip(1));
        assert(shares.skip(1).skip(1) =~= shares.skip(2));
        assert(joined(shares.skip(1)) =~= joined(shares.skip(2)));
        assert(has_share(slots, n, OperandKind::IdResult)) by {
            assert(slots[place(slots, 1)].kind == OperandKind::IdResult);
        }
    }
    if result_type is Some {
        let j = choose|j: int|
            0 <= j < n && slots[#[trigger] place(slots, j)].kind == OperandKind::IdResultType;
        assert(j < results);
    }
    if result_id is Some {
        let j = choose|j: int|
            0 <= j < n && slots[#[trigger] place(slots, j)].kind == OperandKind::IdResult;
        assert(j < results);
    }
    assert(result_type is Some <==> typed);
    assert(result_id is Some <==> results == 2 || results == 1 && !typed);
    let tail = operands_bytes(joined(shares));
    let second = shares_bytes(slots, result_type, result_id, shares, 1);
    let third = shares_bytes(slots, result_type, result_id, shares, 2);
    if results == 0 {
        assert(whole == tail);
    } else if results == 1 {
        assert(second == tail);
        assert(whole == share_bytes(slots[0].kind, result_type, result_id, shares[0]) + second);
    } else {
        assert(third == tail);
        assert(second == share_bytes(slots[1].kind, result_type, result_id, shares[1]) + third);
        assert(whole == share_bytes(slots[0].kind, result_type, result_id, shares[0]) + second);
    }
    lemma_ids_in_front(result_type, result_id, tail);
}

/// Putting the ids in front of some bytes.
proof fn lemma_ids_in_front(result_type: Option<Word>, result_id: Option<Word>, tail: Seq<u8>)
    ensures
        id_bytes(result_type) + id_bytes(result_id) + tail == match (result_type, result_id) {
            (Some(first), Some(second)) => word_bytes(first) + (word_bytes(second) + tail),
            (Some(first), None) => word_bytes(first) + tail,
            (None, Some(second)) => word_bytes(second) + tail,
            (None, None) => tail,
        },
{
    match (result_type, result_id) {
        (Some(first), Some(second)) => {
            assert(word_bytes(first) + word_bytes(second) + tail =~= word_bytes(first) + (
            word_bytes(second) + tail));
        },
        (Some(first), None) => {
            assert(word_bytes(first) + Seq::<u8>::empty() =~= word_bytes(first));
        },
        (None, Some(second)) => {
            assert(Seq::<u8>::empty() + word_bytes(second) =~= word_bytes(second));
        },
        (None, None) => {
            assert(Seq::<u8>::empty() + Seq::<u8>::empty() + tail =~= tail);
        },
    }
}

/// Whatever conforms to the grammar is parsed: where a binary has the bytes of an
/// instruction that conforms, that instruction is read off them.
#[verifier::rlimit(50)]
pub proof fn law_conforming_instructions_are_parsed<E>(
    cx: Context,
    at: Cursor,
    inst: InstructionView,
)
    requires
        at.limit is None,
        conforms(cx.grammar, cx.types, inst),
        cx.grammar.instruction(inst.class.opcode) matches Some(instruction)
            && results_come_first(instruction.operands@),
        instruction_bytes(inst).len() / 4 < 0x1_0000,
        holds(cx.bytes, at.offset, instruction_bytes(inst)),
    ensures
        read_inst::<E>(cx, at) == (Parse::<InstructionView, E> {
            result: Ok(inst),
            rest: Cursor { offset: at.offset + instruction_bytes(inst).len(), limit: None },
        }),
{
    reveal(read_inst);
    let instruction = cx.grammar.instruction(inst.class.opcode)->0;
    let slots = instruction.operands@;
    let shares = choose|shares: Seq<Seq<OperandView>>|
        is_divided(
            cx.grammar,
            cx.types,
            slots,
            inst.result_type,
            inst.result_id,
            inst.operands,
            shares,
        ) && #[trigger] may_end(slots, shares.len());
    let body = body_bytes(inst.result_type, inst.result_id, inst.operands);
    lemma_body(cx, slots, inst.result_type, inst.result_id, shares);
    lemma_shares_size(cx, slots, inst.result_type, inst.result_id, shares, 0);
    let word = (0x1_0000 * (1 + body.len() / 4) + inst.class.opcode) as Word;
    assert(word_count(word) == 1 + body.len() / 4);
    assert(opcode(word) == inst.class.opcode);
    lemma_holds_split(cx.bytes, at.offset, word_bytes(word), body);
    lemma_word_found(cx.bytes, at, word);
    let start = Cursor { offset: at.offset + 4, limit: Some((word_count(word) - 1) as nat) };
    assert(draft_of(slots, inst.result_type, inst.result_id, shares, 0) == empty_draft()) by {
        assert(shares.take(0) =~= Seq::empty());
    }
    lemma_slots_found::<E>(cx, slots, inst.result_type, inst.result_id, shares, 0, start);
}

/// The first word of the bytes of an instruction has its opcode.
#[verifier::rlimit(50)]
proof fn lemma_opcode_written(bytes: Seq<u8>, at: Cursor, inst: InstructionView)
    requires
        at.limit is None,
        instruction_bytes(inst).len() / 4 < 0x1_0000,
        holds(bytes, at.offset, instruction_bytes(inst)),
    ensures
        read_word(bytes, at).result matches Ok(word) && opcode(word) == inst.class.opcode,
{
    let body = body_bytes(inst.result_type, inst.result_id, inst.operands);
    let word = (0x1_0000 * (1 + body.len() / 4) + inst.class.opcode) as Word;
    lemma_holds_split(bytes, at.offset, word_bytes(word), body);
    lemma_word_found(bytes, at, word);
    assert(opcode(word) == inst.class.opcode);
}

/// An instruction is parsed if and only if it conforms to the grammar and its bytes
/// stand there.
#[verifier::rlimit(50)]
pub proof fn law_parsed_if_and_only_if_conforming<E>(cx: Context, at: Cursor, inst: InstructionView)
    requires
        at.limit is None,
        is_kept_whole::<E>(cx, at),
    ensures
        read_inst::<E>(cx, at).result == Ok::<InstructionView, State<E>>(inst) <==> {
            &&& conforms(cx.grammar, cx.types, inst)
            &&& instruction_bytes(inst).len() / 4 < 0x1_0000
            &&& holds(cx.bytes, at.offset, instruction_bytes(inst))
        },
{
    if read_inst::<E>(cx, at).result == Ok::<InstructionView, State<E>>(inst) {
        law_parsed_instructions_conform::<E>(cx, at);
        law_word_count_is_used_up::<E>(cx, at);
        law_parsing_loses_nothing::<E>(cx, at);
    }
    if conforms(cx.grammar, cx.types, inst) && instruction_bytes(inst).len() / 4 < 0x1_0000
        && holds(cx.bytes, at.offset, instruction_bytes(inst)) {
        lemma_opcode_written(cx.bytes, at, inst);
        law_conforming_instructions_are_parsed::<E>(cx, at, inst);
    }
}

} // verus!
