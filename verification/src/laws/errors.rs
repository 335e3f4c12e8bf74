//! Every error is borne out by the binary.

use crate::decoder::{
    is_enumerant, read_enumerant, read_int64, read_word, skip_string, trim_nul, Cursor, DecodeError,
    Reading,
};
use crate::grammar::{BasicKind, Grammar, LogicalOperand, OperandKind, OperandQuantifier};
use crate::laws::binary::{code_at, count_at};
use crate::laws::locations::is_supported;
use crate::laws::lookup::law_every_opcode_is_found;
use crate::mr::{InstructionView, OperandView};
use crate::spirv::{word_at, Word};
use crate::state::State;
use crate::syntax::{
    components, empty_draft, enumerant_parameters, lemma_slot_onward, opcode, read_basic, read_each,
    read_ids, read_inst, read_literal, read_operand, read_slot, read_slots, read_spec_constant_op,
    word_count, Context, Draft,
};
use vstd::prelude::*;
use vstd::utf8::valid_utf8;

verus! {

/// Whether the words of a string, which start at an offset, end at another: the last
/// of them, and no other, has a nul byte as its last byte.
pub open spec fn string_spans(bytes: Seq<u8>, from: int, to: int) -> bool {
    &&& from + 4 <= to <= bytes.len()
    &&& (to - from) % 4 == 0
    &&& bytes[to - 1] == 0
    &&& forall|i: int| from <= i < to - 4 && (i - from) % 4 == 3 ==> #[trigger] bytes[i] != 0
}

/// Whether the binary bears out an error of the decoder in the operands of an
/// instruction, which go from an offset to another:
///
/// - Where more of the binary is expected, no whole word is left in it, or none in the
///   instruction.
/// - Where the limit is reached, no word is left in the instruction.
/// - Where a string cannot be decoded, its bytes are not UTF-8.
/// - Where an enumerant is unknown, it is the word that stands there, and the
///   enumeration does not have it.
pub open spec fn bears_out_decoding(
    grammar: Grammar,
    bytes: Seq<u8>,
    from: int,
    to: int,
    error: DecodeError,
) -> bool {
    match error {
        DecodeError::StreamExpected(x) => {
            &&& from <= x <= bytes.len()
            &&& bytes.len() < x + 4 || x == to
        },
        DecodeError::LimitReached(x) => x == to,
        DecodeError::DecodeStringFailed(x) => {
            &&& from <= x < to
            &&& exists|y: int| #[trigger]
                string_spans(bytes, x as int, y) && y <= to && !valid_utf8(
                    trim_nul(bytes.subrange(x as int, y)),
                )
        },
        DecodeError::EnumerantUnknown(x, kind, value) => {
            &&& from <= x < to
            &&& x + 4 <= bytes.len()
            &&& value == word_at(bytes, x as int)
            &&& !is_enumerant(grammar, kind, value)
        },
    }
}

/// Whether no instruction of a grammar has this opcode.
pub open spec fn lacks_opcode(grammar: Grammar, code: nat) -> bool {
    forall|k: int|
        0 <= k < grammar.instructions().len() ==> (
        #[trigger] grammar.instructions()[k]).class.opcode != code
}

/// Whether the binary bears out that parsing an instruction, which starts at an
/// offset, ends in a state:
///
/// - The module is complete where no whole word is left.
/// - A word count of zero, and an unknown opcode, are those that stand there.
/// - Operands are missing where the instruction has no more words, and left over
///   where it has some.
/// - What cannot be decoded stands in the instruction, or is missing from it.
/// - An unsupported type is one that has been declared.
/// - An unknown operation is the low half of the word before.
pub open spec fn bears_out<E>(cx: Context, start: nat, state: State<E>) -> bool {
    let end = start + 4 * count_at(cx.bytes, start);
    &&& !(state is Complete) ==> start + 4 <= cx.bytes.len()
    &&& match state {
        State::Complete => cx.bytes.len() < start + 4,
        State::WordCountZero(x, number) => {
            &&& x == start && number == cx.index
            &&& count_at(cx.bytes, start) == 0
        },
        State::OpcodeUnknown(x, number, code) => {
            &&& x == start && number == cx.index
            &&& count_at(cx.bytes, start) > 0
            &&& code == code_at(cx.bytes, start)
            &&& lacks_opcode(cx.grammar, code as nat)
        },
        State::OperandExpected(x, number) => {
            &&& x == end && number == cx.index
            &&& start < end <= cx.bytes.len()
        },
        State::OperandExceeded(x, number) => {
            &&& number == cx.index
            &&& start < x < end
            &&& (x - start) % 4 == 0
            &&& x <= cx.bytes.len()
        },
        State::OperandError(error) => bears_out_decoding(
            cx.grammar,
            cx.bytes,
            start as int + 4,
            end as int,
            error,
        ),
        State::TypeUnsupported(x, number) => {
            &&& number == cx.index
            &&& start < x < end
            &&& (x - start) % 4 == 0
            &&& x <= cx.bytes.len()
            &&& exists|id: Word| #[trigger]
                cx.types.contains_key(id) && !is_supported(cx.types[id])
        },
        State::SpecConstantOpIntegerIncorrect(x, number) => {
            &&& number == cx.index
            &&& start + 8 <= x <= end
            &&& (x - start) % 4 == 0
            &&& x <= cx.bytes.len()
            &&& lacks_opcode(cx.grammar, code_at(cx.bytes, (x - 4) as nat))
        },
        _ => false,
    }
}

/// A cursor in the operands that go from an offset to another.
spec fn inside(bytes: Seq<u8>, from: int, to: int, at: Cursor) -> bool {
    &&& from <= at.offset <= bytes.len()
    &&& (at.offset - from) % 4 == 0
    &&& bytes.len() <= usize::MAX
    &&& at.limit matches Some(left)
    &&& at.offset + 4 * left == to
}

/// Whether a reading stays in the operands, and its error is borne out.
spec fn is_sound<T>(
    grammar: Grammar,
    bytes: Seq<u8>,
    from: int,
    to: int,
    reading: Reading<T>,
) -> bool {
    match reading.result {
        Ok(_) => inside(bytes, from, to, reading.rest),
        Err(error) => bears_out_decoding(grammar, bytes, from, to, error),
    }
}

proof fn lemma_word_sound(grammar: Grammar, bytes: Seq<u8>, from: int, to: int, at: Cursor)
    requires
        inside(bytes, from, to, at),
    ensures
        is_sound(grammar, bytes, from, to, read_word(bytes, at)),
{
}

proof fn lemma_int64_sound(grammar: Grammar, bytes: Seq<u8>, from: int, to: int, at: Cursor)
    requires
        inside(bytes, from, to, at),
    ensures
        is_sound(grammar, bytes, from, to, read_int64(bytes, at)),
{
    lemma_word_sound(grammar, bytes, from, to, at);
    let low = read_word(bytes, at);
    if low.result is Ok {
        lemma_word_sound(grammar, bytes, from, to, low.rest);
    }
}

proof fn lemma_skip_sound(grammar: Grammar, bytes: Seq<u8>, from: int, to: int, at: Cursor)
    requires
        inside(bytes, from, to, at),
    ensures
        is_sound(grammar, bytes, from, to, skip_string(bytes, at)),
        skip_string(bytes, at).result is Ok ==> string_spans(
            bytes,
            at.offset as int,
            skip_string(bytes, at).rest.offset as int,
        ) && skip_string(bytes, at).rest.offset <= to,
    decreases bytes.len() - at.offset,
{
    lemma_word_sound(grammar, bytes, from, to, at);
    let word = read_word(bytes, at);
    if word.result is Ok && bytes[at.offset as int + 3] != 0 {
        lemma_skip_sound(grammar, bytes, from, to, word.rest);
        let words = skip_string(bytes, at);
        if words.result is Ok {
            assert forall|i: int|
                at.offset <= i < words.rest.offset - 4 && (i - at.offset) % 4
                    == 3 implies #[trigger] bytes[i] != 0 by {
                if i >= at.offset + 4 {
                    assert((i - word.rest.offset) % 4 == 3);
                }
            }
        }
    }
}

proof fn lemma_basic_sound(
    grammar: Grammar,
    bytes: Seq<u8>,
    from: int,
    to: int,
    kind: BasicKind,
    at: Cursor,
)
    requires
        inside(bytes, from, to, at),
    ensures
        is_sound(grammar, bytes, from, to, read_basic(grammar, bytes, kind, at)),
{
    lemma_word_sound(grammar, bytes, from, to, at);
    if kind is LiteralString {
        lemma_skip_sound(grammar, bytes, from, to, at);
        let words = skip_string(bytes, at);
        if words.result is Ok {
            assert(string_spans(bytes, at.offset as int, words.rest.offset as int));
            assert(at.offset < to);
        }
    }
}

proof fn lemma_each_sound(
    grammar: Grammar,
    bytes: Seq<u8>,
    from: int,
    to: int,
    kinds: Seq<BasicKind>,
    k: int,
    operands: Seq<OperandView>,
    at: Cursor,
)
    requires
        inside(bytes, from, to, at),
    ensures
        is_sound(grammar, bytes, from, to, read_each(grammar, bytes, kinds, k, operands, at)),
    decreases kinds.len() - k,
{
    if 0 <= k < kinds.len() {
        lemma_basic_sound(grammar, bytes, from, to, kinds[k], at);
        let next = read_basic(grammar, bytes, kinds[k], at);
        if let Ok(operand) = next.result {
            lemma_each_sound(
                grammar,
                bytes,
                from,
                to,
                kinds,
                k + 1,
                operands.push(operand),
                next.rest,
            );
        }
    }
}

proof fn lemma_operand_sound(
    grammar: Grammar,
    bytes: Seq<u8>,
    from: int,
    to: int,
    kind: OperandKind,
    at: Cursor,
)
    requires
        inside(bytes, from, to, at),
    ensures
        is_sound(grammar, bytes, from, to, read_operand(grammar, bytes, kind, at)),
{
    match kind {
        OperandKind::Basic(BasicKind::Enumerant(kind)) => {
            lemma_basic_sound(grammar, bytes, from, to, BasicKind::Enumerant(kind), at);
            let value = read_enumerant(grammar, bytes, kind, at);
            if let Ok(word) = value.result {
                lemma_each_sound(
                    grammar,
                    bytes,
                    from,
                    to,
                    enumerant_parameters(grammar, kind, word),
                    0,
                    seq![OperandView::Enumerant(kind, word)],
                    value.rest,
                );
            }
        },
        _ => {
            lemma_each_sound(grammar, bytes, from, to, components(kind), 0, Seq::empty(), at);
        },
    }
}

proof fn lemma_ids_sound(
    grammar: Grammar,
    bytes: Seq<u8>,
    from: int,
    to: int,
    slots: Seq<LogicalOperand>,
    k: int,
    operands: Seq<OperandView>,
    at: Cursor,
)
    requires
        inside(bytes, from, to, at),
    ensures
        is_sound(grammar, bytes, from, to, read_ids(bytes, slots, k, operands, at)),
    decreases slots.len() - k,
{
    if 0 <= k < slots.len() {
        if slots[k].kind == OperandKind::Basic(BasicKind::IdRef) {
            lemma_word_sound(grammar, bytes, from, to, at);
            let id = read_word(bytes, at);
            if let Ok(id_word) = id.result {
                lemma_ids_sound(
                    grammar,
                    bytes,
                    from,
                    to,
                    slots,
                    k + 1,
                    operands.push(OperandView::IdRef(id_word)),
                    id.rest,
                );
            }
        } else {
            lemma_ids_sound(grammar, bytes, from, to, slots, k + 1, operands, at);
        }
    }
}

/// Where the operands of the instruction at an offset are.
spec fn among_operands(cx: Context, start: nat, at: Cursor) -> bool {
    &&& cx.index <= usize::MAX
    &&& start + 4 <= cx.bytes.len()
    &&& inside(cx.bytes, start as int + 4, start as int + 4 * count_at(cx.bytes, start), at)
}

#[verifier::rlimit(50)]
proof fn lemma_operation_sound<E>(cx: Context, start: nat, at: Cursor)
    requires
        among_operands(cx, start, at),
    ensures
        ({
            let parse = read_spec_constant_op::<E>(cx, at);
            match parse.result {
                Ok(_) => among_operands(cx, start, parse.rest),
                Err(state) => bears_out(cx, start, state),
            }
        }),
{
    let from = start as int + 4;
    let to = start as int + 4 * count_at(cx.bytes, start);
    lemma_word_sound(cx.grammar, cx.bytes, from, to, at);
    let number = read_word(cx.bytes, at);
    if let Ok(value) = number.result {
        let code = (value % 0x1_0000) as u16;
        assert(code == code_at(cx.bytes, at.offset));
        law_every_opcode_is_found(cx.grammar, code);
        match cx.grammar.instruction(code) {
            Some(operation) => {
                lemma_ids_sound(
                    cx.grammar,
                    cx.bytes,
                    from,
                    to,
                    operation.operands@,
                    0,
                    seq![OperandView::LiteralSpecConstantOpInteger(operation.class.opcode)],
                    number.rest,
                );
            },
            None => {
                assert(lacks_opcode(cx.grammar, code_at(cx.bytes, at.offset)));
            },
        }
    }
}

#[verifier::rlimit(50)]
proof fn lemma_literal_sound<E>(cx: Context, start: nat, type_id: Word, at: Cursor)
    requires
        among_operands(cx, start, at),
        at.limit != Some(0nat),
    ensures
        ({
            let parse = read_literal::<E>(cx, type_id, at);
            match parse.result {
                Ok(_) => among_operands(cx, start, parse.rest),
                Err(state) => bears_out(cx, start, state),
            }
        }),
{
    let from = start as int + 4;
    let to = start as int + 4 * count_at(cx.bytes, start);
    lemma_word_sound(cx.grammar, cx.bytes, from, to, at);
    lemma_int64_sound(cx.grammar, cx.bytes, from, to, at);
    if read_literal::<E>(cx, type_id, at).result matches Err(State::TypeUnsupported(_, _)) {
        assert(cx.types.contains_key(type_id) && !is_supported(cx.types[type_id]));
    }
}

#[verifier::rlimit(50)]
proof fn lemma_slot_sound<E>(cx: Context, start: nat, kind: OperandKind, draft: Draft, at: Cursor)
    requires
        among_operands(cx, start, at),
        at.limit != Some(0nat),
    ensures
        ({
            let parse = read_slot::<E>(cx, kind, draft, at);
            match parse.result {
                Ok(_) => among_operands(cx, start, parse.rest),
                Err(state) => bears_out(cx, start, state),
            }
        }),
{
    reveal(read_slot);
    let from = start as int + 4;
    let to = start as int + 4 * count_at(cx.bytes, start);
    match kind {
        OperandKind::IdResultType | OperandKind::IdResult => {
            lemma_word_sound(cx.grammar, cx.bytes, from, to, at);
        },
        OperandKind::LiteralContextDependentNumber => {
            lemma_literal_sound::<E>(cx, start, draft.result_type->0, at);
        },
        OperandKind::LiteralSpecConstantOpInteger => {
            lemma_operation_sound::<E>(cx, start, at);
        },
        _ => {
            lemma_operand_sound(cx.grammar, cx.bytes, from, to, kind, at);
        },
    }
}

#[verifier::rlimit(50)]
proof fn lemma_slots_sound<E>(
    cx: Context,
    start: nat,
    slots: Seq<LogicalOperand>,
    k: int,
    draft: Draft,
    at: Cursor,
)
    requires
        among_operands(cx, start, at),
    ensures
        ({
            let parse = read_slots::<E>(cx, slots, k, draft, at);
            match parse.result {
                Ok(_) => among_operands(cx, start, parse.rest),
                Err(state) => bears_out(cx, start, state),
            }
        }),
    decreases slots.len() - k, cx.bytes.len() - at.offset,
{
    if 0 <= k < slots.len() && at.limit != Some(0nat) {
        let slot = read_slot::<E>(cx, slots[k].kind, draft, at);
        lemma_slot_onward::<E>(cx, slots[k].kind, draft, at);
        lemma_slot_sound::<E>(cx, start, slots[k].kind, draft, at);
        if let Ok(longer) = slot.result {
            match slots[k].quantifier {
                OperandQuantifier::ZeroOrMore => {
                    lemma_slots_sound::<E>(cx, start, slots, k, longer, slot.rest);
                },
                _ => {
                    lemma_slots_sound::<E>(cx, start, slots, k + 1, longer, slot.rest);
                },
            }
        }
    }
}

/// Whatever parsing an instruction ends in is borne out by the binary.
#[verifier::rlimit(50)]
pub proof fn law_errors_are_borne_out<E>(cx: Context, at: Cursor)
    requires
        cx.bytes.len() <= usize::MAX,
        cx.index <= usize::MAX,
        at.offset <= cx.bytes.len(),
        at.limit is None,
    ensures
        read_inst::<E>(cx, at).result matches Err(state) ==> bears_out(cx, at.offset, state),
{
    reveal(read_inst);
    if let Ok(word) = read_word(cx.bytes, at).result {
        assert(word_count(word) == count_at(cx.bytes, at.offset));
        assert(opcode(word) == code_at(cx.bytes, at.offset));
        law_every_opcode_is_found(cx.grammar, opcode(word));
        if word_count(word) != 0 {
            if let Some(instruction) = cx.grammar.instruction(opcode(word)) {
                lemma_slots_sound::<E>(
                    cx,
                    at.offset,
                    instruction.operands@,
                    0,
                    empty_draft(),
                    Cursor {
                        offset: at.offset + 4,
                        limit: Some((word_count(word) - 1) as nat),
                    },
                );
            } else {
                assert(lacks_opcode(cx.grammar, opcode(word) as nat));
            }
        }
    }
}

/// A word count of zero is always reported, and so is an opcode that the grammar
/// lacks.
pub proof fn law_first_words_are_looked_at<E>(cx: Context, at: Cursor)
    requires
        at.limit is None,
        at.offset + 4 <= cx.bytes.len(),
        count_at(cx.bytes, at.offset) == 0 || lacks_opcode(
            cx.grammar,
            code_at(cx.bytes, at.offset),
        ),
    ensures
        ({
            let code = code_at(cx.bytes, at.offset) as u16;
            read_inst::<E>(cx, at).result == if count_at(cx.bytes, at.offset) == 0 {
                Err::<InstructionView, State<E>>(
                    State::WordCountZero(at.offset as usize, cx.index as usize),
                )
            } else {
                Err::<InstructionView, State<E>>(
                    State::OpcodeUnknown(at.offset as usize, cx.index as usize, code),
                )
            }
        }),
{
    reveal(read_inst);
    let word = word_at(cx.bytes, at.offset as int);
    assert(word_count(word) == count_at(cx.bytes, at.offset));
    assert(opcode(word) == code_at(cx.bytes, at.offset));
    law_every_opcode_is_found(cx.grammar, opcode(word));
}

} // verus!
