//! An instruction is read off its own words alone.

use crate::decoder::{
    read_enumerant, read_int64, read_string, read_word, skip_string, Cursor, Reading,
};
use crate::grammar::{BasicKind, Grammar, LogicalOperand, OperandKind, OperandQuantifier};
use crate::mr::OperandView;
use crate::spirv::{word_at, Word};
use crate::syntax::{
    components, empty_draft, enumerant_parameters, law_word_count_is_used_up, lemma_basic_onward,
    lemma_each_onward, lemma_ids_onward, lemma_slot_onward, lemma_slots_onward, lemma_string_onward,
    opcode, read_basic, read_each, read_ids, read_inst, read_literal, read_operand, read_slot,
    read_slots, read_spec_constant_op, word_count, Context, Draft, Parse,
};
use vstd::prelude::*;

verus! {

/// Whether the `n` bytes from an offset on in one binary stand at an offset in
/// another one.
pub open spec fn stands_at(bytes: Seq<u8>, from: nat, n: int, other: Seq<u8>, to: nat) -> bool {
    &&& to + n <= other.len()
    &&& forall|j: int| to <= j < to + n ==> #[trigger] other[j] == bytes[from + (j - to)]
}

/// A cursor as far behind `to` as `rest` is behind `at`.
pub open spec fn shifted(at: Cursor, rest: Cursor, to: nat) -> Cursor {
    Cursor { offset: (to + (rest.offset - at.offset)) as nat, limit: rest.limit }
}

/// Whether what was read at a cursor would be read at another one, in another
/// binary, if the same bytes stood there.
spec fn is_local<T>(
    bytes: Seq<u8>,
    at: Cursor,
    reading: Reading<T>,
    other: Seq<u8>,
    to: nat,
    elsewhere: Reading<T>,
) -> bool {
    (reading.result is Ok && stands_at(
        bytes,
        at.offset,
        reading.rest.offset - at.offset,
        other,
        to,
    )) ==> elsewhere == (Reading {
        result: reading.result,
        rest: shifted(at, reading.rest, to),
    })
}

spec fn moved(at: Cursor, to: nat) -> Cursor {
    Cursor { offset: to, limit: at.limit }
}

proof fn lemma_word_local(bytes: Seq<u8>, at: Cursor, other: Seq<u8>, to: nat)
    ensures
        is_local(bytes, at, read_word(bytes, at), other, to, read_word(other, moved(at, to))),
{
    let word = read_word(bytes, at);
    if word.result is Ok && stands_at(bytes, at.offset, 4, other, to) {
        assert(word_at(bytes, at.offset as int) == word_at(other, to as int));
    }
}

/// The bytes behind the first `n` of some bytes that stand elsewhere.
proof fn lemma_stands_behind(
    bytes: Seq<u8>,
    from: nat,
    n: int,
    other: Seq<u8>,
    to: nat,
    first: nat,
)
    requires
        stands_at(bytes, from, n, other, to),
        first <= n,
    ensures
        stands_at(bytes, from, first as int, other, to),
        stands_at(bytes, from + first, n - first, other, to + first),
{
}

proof fn lemma_int64_local(bytes: Seq<u8>, at: Cursor, other: Seq<u8>, to: nat)
    ensures
        is_local(bytes, at, read_int64(bytes, at), other, to, read_int64(other, moved(at, to))),
{
    let number = read_int64(bytes, at);
    if number.result is Ok && stands_at(bytes, at.offset, 8, other, to) {
        let low = read_word(bytes, at);
        lemma_stands_behind(bytes, at.offset, 8, other, to, 4);
        lemma_word_local(bytes, at, other, to);
        lemma_word_local(bytes, low.rest, other, to + 4);
    }
}

proof fn lemma_skip_local(bytes: Seq<u8>, at: Cursor, other: Seq<u8>, to: nat)
    ensures
        is_local(bytes, at, skip_string(bytes, at), other, to, skip_string(other, moved(at, to))),
    decreases bytes.len() - at.offset,
{
    let words = skip_string(bytes, at);
    if words.result is Ok {
        lemma_string_onward(bytes, at);
        let n = words.rest.offset - at.offset;
        if stands_at(bytes, at.offset, n, other, to) {
            let word = read_word(bytes, at);
            if bytes[at.offset as int + 3] != 0 {
                lemma_string_onward(bytes, word.rest);
            }
            lemma_stands_behind(bytes, at.offset, n, other, to, 4);
            lemma_word_local(bytes, at, other, to);
                if bytes[at.offset as int + 3] != 0 {
                lemma_skip_local(bytes, word.rest, other, to + 4);
            }
        }
    }
}

proof fn lemma_string_local(bytes: Seq<u8>, at: Cursor, other: Seq<u8>, to: nat)
    ensures
        is_local(bytes, at, read_string(bytes, at), other, to, read_string(other, moved(at, to))),
{
    let text = read_string(bytes, at);
    if text.result is Ok {
        lemma_string_onward(bytes, at);
        let n = text.rest.offset - at.offset;
        if stands_at(bytes, at.offset, n, other, to) {
            lemma_skip_local(bytes, at, other, to);
            let here = bytes.subrange(at.offset as int, text.rest.offset as int);
            let there = other.subrange(to as int, to + n);
            assert(here =~= there);
        }
    }
}

proof fn lemma_basic_local(
    grammar: Grammar,
    bytes: Seq<u8>,
    kind: BasicKind,
    at: Cursor,
    other: Seq<u8>,
    to: nat,
)
    ensures
        is_local(
            bytes,
            at,
            read_basic(grammar, bytes, kind, at),
            other,
            to,
            read_basic(grammar, other, kind, moved(at, to)),
        ),
{
    lemma_word_local(bytes, at, other, to);
    lemma_string_local(bytes, at, other, to);
}

proof fn lemma_each_local(
    grammar: Grammar,
    bytes: Seq<u8>,
    kinds: Seq<BasicKind>,
    k: int,
    operands: Seq<OperandView>,
    at: Cursor,
    other: Seq<u8>,
    to: nat,
)
    ensures
        is_local(
            bytes,
            at,
            read_each(grammar, bytes, kinds, k, operands, at),
            other,
            to,
            read_each(grammar, other, kinds, k, operands, moved(at, to)),
        ),
    decreases kinds.len() - k,
{
    let each = read_each(grammar, bytes, kinds, k, operands, at);
    if 0 <= k < kinds.len() && each.result is Ok {
        lemma_each_onward(grammar, bytes, kinds, k, operands, at);
        let n = each.rest.offset - at.offset;
        if stands_at(bytes, at.offset, n, other, to) {
            let next = read_basic(grammar, bytes, kinds[k], at);
            lemma_basic_onward(grammar, bytes, kinds[k], at);
            let longer = operands.push(next.result->Ok_0);
            lemma_each_onward(grammar, bytes, kinds, k + 1, longer, next.rest);
            let first = (next.rest.offset - at.offset) as nat;
            lemma_stands_behind(bytes, at.offset, n, other, to, first);
            lemma_basic_local(grammar, bytes, kinds[k], at, other, to);
            lemma_each_local(
                grammar,
                bytes,
                kinds,
                k + 1,
                longer,
                next.rest,
                other,
                to + first,
            );
        }
    }
}

proof fn lemma_operand_local(
    grammar: Grammar,
    bytes: Seq<u8>,
    kind: OperandKind,
    at: Cursor,
    other: Seq<u8>,
    to: nat,
)
    ensures
        is_local(
            bytes,
            at,
            read_operand(grammar, bytes, kind, at),
            other,
            to,
            read_operand(grammar, other, kind, moved(at, to)),
        ),
{
    let operand = read_operand(grammar, bytes, kind, at);
    match kind {
        OperandKind::Basic(BasicKind::Enumerant(kind)) => {
            if operand.result is Ok {
                let value = read_enumerant(grammar, bytes, kind, at);
                let word = value.result->Ok_0;
                let kinds = enumerant_parameters(grammar, kind, word);
                let operands = seq![OperandView::Enumerant(kind, word)];
                lemma_each_onward(grammar, bytes, kinds, 0, operands, value.rest);
                let n = operand.rest.offset - at.offset;
                if stands_at(bytes, at.offset, n, other, to) {
                    lemma_stands_behind(bytes, at.offset, n, other, to, 4);
                    lemma_word_local(bytes, at, other, to);
                    lemma_each_local(
                        grammar,
                        bytes,
                        kinds,
                        0,
                        operands,
                        value.rest,
                        other,
                        to + 4,
                    );
                }
            }
        },
        _ => {
            lemma_each_local(grammar, bytes, components(kind), 0, Seq::empty(), at, other, to);
        },
    }
}

proof fn lemma_ids_local(
    bytes: Seq<u8>,
    slots: Seq<LogicalOperand>,
    k: int,
    operands: Seq<OperandView>,
    at: Cursor,
    other: Seq<u8>,
    to: nat,
)
    ensures
        is_local(
            bytes,
            at,
            read_ids(bytes, slots, k, operands, at),
            other,
            to,
            read_ids(other, slots, k, operands, moved(at, to)),
        ),
    decreases slots.len() - k,
{
    let ids = read_ids(bytes, slots, k, operands, at);
    if 0 <= k < slots.len() && ids.result is Ok {
        if slots[k].kind == OperandKind::Basic(BasicKind::IdRef) {
            let id = read_word(bytes, at);
            let longer = operands.push(OperandView::IdRef(id.result->Ok_0));
            lemma_ids_onward(bytes, slots, k + 1, longer, id.rest);
            let n = ids.rest.offset - at.offset;
            if stands_at(bytes, at.offset, n, other, to) {
                lemma_stands_behind(bytes, at.offset, n, other, to, 4);
                lemma_word_local(bytes, at, other, to);
                lemma_ids_local(bytes, slots, k + 1, longer, id.rest, other, to + 4);
            }
        } else {
            lemma_ids_local(bytes, slots, k + 1, operands, at, other, to);
        }
    }
}

/// The same for a parse.
spec fn parse_is_local<T, E>(
    bytes: Seq<u8>,
    at: Cursor,
    parse: Parse<T, E>,
    other: Seq<u8>,
    to: nat,
    elsewhere: Parse<T, E>,
) -> bool {
    (parse.result is Ok && stands_at(
        bytes,
        at.offset,
        parse.rest.offset - at.offset,
        other,
        to,
    )) ==> elsewhere == (Parse {
        result: parse.result,
        rest: shifted(at, parse.rest, to),
    })
}

/// Whether two contexts have the same grammar and the same types.
pub open spec fn same_rules(cx: Context, other: Context) -> bool {
    cx.grammar == other.grammar && cx.types == other.types
}

proof fn lemma_literal_local<E>(cx: Context, type_id: Word, at: Cursor, other: Context, to: nat)
    requires
        same_rules(cx, other),
    ensures
        parse_is_local(
            cx.bytes,
            at,
            read_literal::<E>(cx, type_id, at),
            other.bytes,
            to,
            read_literal::<E>(other, type_id, moved(at, to)),
        ),
{
    lemma_word_local(cx.bytes, at, other.bytes, to);
    lemma_int64_local(cx.bytes, at, other.bytes, to);
}

proof fn lemma_operation_local<E>(cx: Context, at: Cursor, other: Context, to: nat)
    requires
        same_rules(cx, other),
    ensures
        parse_is_local(
            cx.bytes,
            at,
            read_spec_constant_op::<E>(cx, at),
            other.bytes,
            to,
            read_spec_constant_op::<E>(other, moved(at, to)),
        ),
{
    let parse = read_spec_constant_op::<E>(cx, at);
    if parse.result is Ok {
        let number = read_word(cx.bytes, at);
        let value = number.result->Ok_0;
        let operation = cx.grammar.instruction((value % 0x1_0000) as u16)->0;
        let operands = seq![OperandView::LiteralSpecConstantOpInteger(operation.class.opcode)];
        lemma_ids_onward(cx.bytes, operation.operands@, 0, operands, number.rest);
        let n = parse.rest.offset - at.offset;
        if stands_at(cx.bytes, at.offset, n, other.bytes, to) {
            lemma_stands_behind(cx.bytes, at.offset, n, other.bytes, to, 4);
            lemma_word_local(cx.bytes, at, other.bytes, to);
            lemma_ids_local(
                cx.bytes,
                operation.operands@,
                0,
                operands,
                number.rest,
                other.bytes,
                to + 4,
            );
        }
    }
}

proof fn lemma_slot_local<E>(
    cx: Context,
    kind: OperandKind,
    draft: Draft,
    at: Cursor,
    other: Context,
    to: nat,
)
    requires
        same_rules(cx, other),
    ensures
        parse_is_local(
            cx.bytes,
            at,
            read_slot::<E>(cx, kind, draft, at),
            other.bytes,
            to,
            read_slot::<E>(other, kind, draft, moved(at, to)),
        ),
{
    reveal(read_slot);
    match kind {
        OperandKind::IdResultType | OperandKind::IdResult => {
            lemma_word_local(cx.bytes, at, other.bytes, to);
        },
        OperandKind::LiteralContextDependentNumber => {
            lemma_literal_local::<E>(cx, draft.result_type->0, at, other, to);
        },
        OperandKind::LiteralSpecConstantOpInteger => {
            lemma_operation_local::<E>(cx, at, other, to);
        },
        _ => {
            lemma_operand_local(cx.grammar, cx.bytes, kind, at, other.bytes, to);
        },
    }
}

proof fn lemma_slots_local<E>(
    cx: Context,
    slots: Seq<LogicalOperand>,
    k: int,
    draft: Draft,
    at: Cursor,
    other: Context,
    to: nat,
)
    requires
        same_rules(cx, other),
        at.offset <= cx.bytes.len(),
    ensures
        parse_is_local(
            cx.bytes,
            at,
            read_slots::<E>(cx, slots, k, draft, at),
            other.bytes,
            to,
            read_slots::<E>(other, slots, k, draft, moved(at, to)),
        ),
    decreases slots.len() - k, cx.bytes.len() - at.offset,
{
    let parse = read_slots::<E>(cx, slots, k, draft, at);
    if 0 <= k < slots.len() && at.limit != Some(0nat) && parse.result is Ok {
        let slot = read_slot::<E>(cx, slots[k].kind, draft, at);
        lemma_slot_onward::<E>(cx, slots[k].kind, draft, at);
        let longer = slot.result->Ok_0;
        let next = if slots[k].quantifier == OperandQuantifier::ZeroOrMore {
            k
        } else {
            k + 1
        };
        lemma_slots_onward::<E>(cx, slots, next, longer, slot.rest);
        let n = parse.rest.offset - at.offset;
        if stands_at(cx.bytes, at.offset, n, other.bytes, to) {
            let first = (slot.rest.offset - at.offset) as nat;
            lemma_stands_behind(cx.bytes, at.offset, n, other.bytes, to, first);
            lemma_slot_local::<E>(cx, slots[k].kind, draft, at, other, to);
            lemma_slots_local::<E>(cx, slots, next, longer, slot.rest, other, to + first);
        }
    }
}

/// An instruction is read off its own words alone: wherever the same words stand,
/// in whatever binary, the same instruction is read, if the grammar and the numeric
/// types known so far are the same.
pub proof fn law_instruction_is_local<E>(cx: Context, at: Cursor, other: Context, to: nat)
    requires
        same_rules(cx, other),
        at.limit is None,
        ({
            let parse = read_inst::<E>(cx, at);
            let n = parse.rest.offset - at.offset;
            &&& parse.result is Ok
            &&& to + n <= other.bytes.len()
            &&& other.bytes.subrange(to as int, to + n) == cx.bytes.subrange(
                at.offset as int,
                parse.rest.offset as int,
            )
        }),
    ensures
        ({
            let here = read_inst::<E>(cx, at);
            let there = read_inst::<E>(other, Cursor { offset: to, limit: None });
            &&& there.result == here.result
            &&& there.rest.offset - to == here.rest.offset - at.offset
        }),
{
    let parse = read_inst::<E>(cx, at);
    let n = parse.rest.offset - at.offset;
    law_word_count_is_used_up::<E>(cx, at);
    reveal(read_inst);
    let here = cx.bytes.subrange(at.offset as int, parse.rest.offset as int);
    let there = other.bytes.subrange(to as int, to + n);
    assert forall|j: int| to <= j < to + n implies #[trigger] other.bytes[j]
        == cx.bytes[at.offset + (j - to)] by {
        assert(there[j - to] == here[j - to]);
    }
    let first = read_word(cx.bytes, at);
    let word = first.result->Ok_0;
    let instruction = cx.grammar.instruction(opcode(word))->0;
    lemma_stands_behind(cx.bytes, at.offset, n, other.bytes, to, 4);
    lemma_word_local(cx.bytes, at, other.bytes, to);
    lemma_slots_local::<E>(
        cx,
        instruction.operands@,
        0,
        empty_draft(),
        Cursor { offset: first.rest.offset, limit: Some((word_count(word) - 1) as nat) },
        other,
        to + 4,
    );
}

} // verus!
