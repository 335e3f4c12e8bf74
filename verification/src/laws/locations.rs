//! Where a parse ends, which of its errors are reported, and where they are.

use crate::decoder::{
    read_enumerant, read_int64, read_word, skip_string, Cursor, DecodeError, Reading,
};
use crate::grammar::{
    BasicKind, Grammar, InstructionGrammar, LogicalOperand, OperandKind, OperandQuantifier,
};
use crate::laws::header::{law_magic_number_decides, law_short_header_is_incomplete};
use crate::laws::lookup::law_every_opcode_is_found;
use crate::laws::protocol::lemma_slots_finding;
use crate::mr::{InstructionView, OperandView};
use crate::parser::plan_of_binary;
use crate::spirv::{word_at, Word};
use crate::state::{state_index, State};
use crate::syntax::{
    after_instruction, components, empty_draft, enumerant_parameters, law_word_count_is_used_up,
    lemma_slot_onward, opcode, read_basic, read_each, read_header, read_ids, read_inst,
    read_listing, read_literal, read_operand, read_slot, read_slots, read_spec_constant_op,
    word_count, Context, Draft, Parse,
};
use crate::tracker::Type;
use vstd::prelude::*;

verus! {

/// The byte offset of an error of the decoder.
pub open spec fn error_offset(error: DecodeError) -> usize {
    match error {
        DecodeError::StreamExpected(offset) => offset,
        DecodeError::LimitReached(offset) => offset,
        DecodeError::DecodeStringFailed(offset) => offset,
        DecodeError::EnumerantUnknown(offset, _, _) => offset,
    }
}

/// The byte offset that a state holds.
pub open spec fn state_offset<E>(state: State<E>) -> Option<usize> {
    match state {
        State::HeaderIncomplete(error) => Some(error_offset(error)),
        State::WordCountZero(offset, _) => Some(offset),
        State::OpcodeUnknown(offset, _, _) => Some(offset),
        State::OperandExpected(offset, _) => Some(offset),
        State::OperandExceeded(offset, _) => Some(offset),
        State::OperandError(error) => Some(error_offset(error)),
        State::TypeUnsupported(offset, _) => Some(offset),
        State::SpecConstantOpIntegerIncorrect(offset, _) => Some(offset),
        _ => None,
    }
}

/// Whether a whole number of words lies between two offsets.
pub open spec fn apart(from: int, to: int) -> bool {
    from <= to && (to - from) % 4 == 0
}

/// Whether a reading stays inside the binary, and its error is at a word that it
/// went over.
spec fn stays<T>(bytes: Seq<u8>, at: Cursor, reading: Reading<T>) -> bool {
    &&& apart(at.offset as int, reading.rest.offset as int)
    &&& reading.rest.offset <= bytes.len()
    &&& reading.result matches Err(error) ==> apart(at.offset as int, error_offset(error) as int)
        && error_offset(error) <= reading.rest.offset
}

/// Whether a parse stays inside the binary, and its state is located at a word that
/// it went over, in the current instruction.
spec fn parse_stays<T, E>(cx: Context, at: Cursor, parse: Parse<T, E>) -> bool {
    &&& apart(at.offset as int, parse.rest.offset as int)
    &&& parse.rest.offset <= cx.bytes.len()
    &&& parse.result matches Err(state) ==> is_located(cx, at.offset, state)
}

/// Whether a state has an offset of a word at or after `from`, inside the binary,
/// and, if it has an instruction number, that of the current instruction.
pub open spec fn is_located<E>(cx: Context, from: nat, state: State<E>) -> bool {
    &&& state_offset(state) matches Some(offset) && apart(from as int, offset as int) && offset
        <= cx.bytes.len()
    &&& state_index(state) matches Some(index) ==> index == cx.index
}

/// Whether offsets and instruction numbers fit into the machine's words.
pub open spec fn fits_in_memory(cx: Context) -> bool {
    cx.bytes.len() <= usize::MAX && cx.index <= usize::MAX
}

proof fn lemma_string_stays(bytes: Seq<u8>, at: Cursor)
    requires
        at.offset <= bytes.len() <= usize::MAX,
    ensures
        stays(bytes, at, skip_string(bytes, at)),
    decreases bytes.len() - at.offset,
{
    let word = read_word(bytes, at);
    if word.result is Ok && bytes[at.offset as int + 3] != 0 {
        lemma_string_stays(bytes, word.rest);
    }
}

proof fn lemma_basic_stays(grammar: Grammar, bytes: Seq<u8>, kind: BasicKind, at: Cursor)
    requires
        at.offset <= bytes.len() <= usize::MAX,
    ensures
        stays(bytes, at, read_basic(grammar, bytes, kind, at)),
{
    lemma_string_stays(bytes, at);
}

proof fn lemma_each_stays(
    grammar: Grammar,
    bytes: Seq<u8>,
    kinds: Seq<BasicKind>,
    k: int,
    operands: Seq<OperandView>,
    at: Cursor,
)
    requires
        at.offset <= bytes.len() <= usize::MAX,
    ensures
        stays(bytes, at, read_each(grammar, bytes, kinds, k, operands, at)),
    decreases kinds.len() - k,
{
    if 0 <= k < kinds.len() {
        lemma_basic_stays(grammar, bytes, kinds[k], at);
        let next = read_basic(grammar, bytes, kinds[k], at);
        if let Ok(operand) = next.result {
            lemma_each_stays(grammar, bytes, kinds, k + 1, operands.push(operand), next.rest);
        }
    }
}

proof fn lemma_operand_stays(grammar: Grammar, bytes: Seq<u8>, kind: OperandKind, at: Cursor)
    requires
        at.offset <= bytes.len() <= usize::MAX,
    ensures
        stays(bytes, at, read_operand(grammar, bytes, kind, at)),
{
    match kind {
        OperandKind::Basic(BasicKind::Enumerant(kind)) => {
            let value = read_enumerant(grammar, bytes, kind, at);
            if let Ok(word) = value.result {
                lemma_each_stays(
                    grammar,
                    bytes,
                    enumerant_parameters(grammar, kind, word),
                    0,
                    seq![OperandView::Enumerant(kind, word)],
                    value.rest,
                );
            }
        },
        _ => {
            lemma_each_stays(grammar, bytes, components(kind), 0, Seq::empty(), at);
        },
    }
}

proof fn lemma_ids_stay(
    bytes: Seq<u8>,
    slots: Seq<LogicalOperand>,
    k: int,
    operands: Seq<OperandView>,
    at: Cursor,
)
    requires
        at.offset <= bytes.len() <= usize::MAX,
    ensures
        stays(bytes, at, read_ids(bytes, slots, k, operands, at)),
    decreases slots.len() - k,
{
    if 0 <= k < slots.len() {
        if slots[k].kind == OperandKind::Basic(BasicKind::IdRef) {
            let id = read_word(bytes, at);
            if let Ok(id_word) = id.result {
                lemma_ids_stay(
                    bytes,
                    slots,
                    k + 1,
                    operands.push(OperandView::IdRef(id_word)),
                    id.rest,
                );
            }
        } else {
            lemma_ids_stay(bytes, slots, k + 1, operands, at);
        }
    }
}

proof fn lemma_literal_stays<E>(cx: Context, type_id: Word, at: Cursor)
    requires
        fits_in_memory(cx),
        at.offset <= cx.bytes.len(),
    ensures
        parse_stays(cx, at, read_literal::<E>(cx, type_id, at)),
{
    assert(stays(cx.bytes, at, read_word(cx.bytes, at)));
    assert(stays(cx.bytes, at, read_int64(cx.bytes, at)));
}

proof fn lemma_operation_stays<E>(cx: Context, at: Cursor)
    requires
        fits_in_memory(cx),
        at.offset <= cx.bytes.len(),
    ensures
        parse_stays(cx, at, read_spec_constant_op::<E>(cx, at)),
{
    let number = read_word(cx.bytes, at);
    if let Ok(value) = number.result {
        if let Some(operation) = cx.grammar.instruction((value % 0x1_0000) as u16) {
            lemma_ids_stay(
                cx.bytes,
                operation.operands@,
                0,
                seq![OperandView::LiteralSpecConstantOpInteger(operation.class.opcode)],
                number.rest,
            );
        }
    }
}

proof fn lemma_slot_stays<E>(cx: Context, kind: OperandKind, draft: Draft, at: Cursor)
    requires
        fits_in_memory(cx),
        at.offset <= cx.bytes.len(),
    ensures
        parse_stays(cx, at, read_slot::<E>(cx, kind, draft, at)),
{
    reveal(read_slot);
    match kind {
        OperandKind::IdResultType | OperandKind::IdResult => {},
        OperandKind::LiteralContextDependentNumber => {
            lemma_literal_stays::<E>(cx, draft.result_type->0, at);
        },
        OperandKind::LiteralSpecConstantOpInteger => {
            lemma_operation_stays::<E>(cx, at);
        },
        _ => {
            lemma_operand_stays(cx.grammar, cx.bytes, kind, at);
        },
    }
}

proof fn lemma_slots_stay<E>(
    cx: Context,
    slots: Seq<LogicalOperand>,
    k: int,
    draft: Draft,
    at: Cursor,
)
    requires
        fits_in_memory(cx),
        at.offset <= cx.bytes.len(),
    ensures
        parse_stays(cx, at, read_slots::<E>(cx, slots, k, draft, at)),
    decreases slots.len() - k, cx.bytes.len() - at.offset,
{
    if 0 <= k < slots.len() && at.limit != Some(0nat) {
        let slot = read_slot::<E>(cx, slots[k].kind, draft, at);
        lemma_slot_onward::<E>(cx, slots[k].kind, draft, at);
        lemma_slot_stays::<E>(cx, slots[k].kind, draft, at);
        if let Ok(longer) = slot.result {
            match slots[k].quantifier {
                OperandQuantifier::ZeroOrMore => {
                    lemma_slots_stay::<E>(cx, slots, k, longer, slot.rest);
                },
                _ => {
                    lemma_slots_stay::<E>(cx, slots, k + 1, longer, slot.rest);
                },
            }
        }
    }
}

/// What is wrong with an instruction is located in it: at a word of it or right
/// behind it, inside the binary, with its number. Where there is nothing wrong and
/// no instruction either, no whole word is left.
pub proof fn law_instruction_errors_are_located<E>(cx: Context, at: Cursor)
    requires
        fits_in_memory(cx),
        at.offset <= cx.bytes.len(),
        at.limit is None,
    ensures
        read_inst::<E>(cx, at).result matches Err(state) ==> if state is Complete {
            cx.bytes.len() < at.offset + 4
        } else {
            is_located(cx, at.offset, state)
        },
{
    reveal(read_inst);
    let first = read_word(cx.bytes, at);
    if let Ok(word) = first.result {
        if word_count(word) != 0 {
            if let Some(instruction) = cx.grammar.instruction(opcode(word)) {
                lemma_slots_stay::<E>(
                    cx,
                    instruction.operands@,
                    0,
                    empty_draft(),
                    Cursor {
                        offset: first.rest.offset,
                        limit: Some((word_count(word) - 1) as nat),
                    },
                );
                lemma_slots_finding::<E>(
                    cx,
                    instruction.operands@,
                    0,
                    empty_draft(),
                    Cursor {
                        offset: first.rest.offset,
                        limit: Some((word_count(word) - 1) as nat),
                    },
                );
            }
        }
    }
}

/// Where the instructions that are listed from a cursor on come to an end.
pub open spec fn end_of_listing<E>(cx: Context, at: Cursor) -> nat
    decreases cx.bytes.len() - at.offset,
{
    let parse = read_inst::<E>(cx, at);
    proof {
        law_word_count_is_used_up::<E>(cx, at);
    }
    match parse.result {
        Ok(instruction) => end_of_listing::<E>(after_instruction(cx, instruction), parse.rest),
        Err(_) => at.offset,
    }
}

/// Listing instructions ends behind the last of them, a whole number of words
/// further on. If it ends because the module is complete, then no whole word is left
/// there; otherwise what is wrong is located in the next instruction.
pub proof fn law_listing_goes_to_the_end<E>(cx: Context, at: Cursor)
    requires
        cx.bytes.len() <= usize::MAX,
        4 * cx.index <= at.offset,
        at.offset <= cx.bytes.len(),
        at.limit is None,
    ensures
        ({
            let listing = read_listing::<E>(cx, at);
            let end = end_of_listing::<E>(cx, at);
            &&& apart(at.offset as int, end as int)
            &&& end <= cx.bytes.len()
            &&& if listing.end is Complete {
                cx.bytes.len() < end + 4
            } else {
                is_located(
                    Context { index: cx.index + listing.instructions.len(), ..cx },
                    end,
                    listing.end,
                )
            }
        }),
    decreases cx.bytes.len() - at.offset,
{
    law_word_count_is_used_up::<E>(cx, at);
    law_instruction_errors_are_located::<E>(cx, at);
    let parse = read_inst::<E>(cx, at);
    if let Ok(instruction) = parse.result {
        law_listing_goes_to_the_end::<E>(after_instruction(cx, instruction), parse.rest);
        let rest = read_listing::<E>(after_instruction(cx, instruction), parse.rest);
        assert(read_listing::<E>(cx, at).instructions.len() == 1 + rest.instructions.len());
    }
}

/// Parsing a binary ends well only if its instructions, which start behind the
/// header, go up to its end, but for what makes no whole word. If it ends with an
/// error, then that error has a byte offset, from 0 on, inside the binary: in the
/// header if it is incomplete, and otherwise in the instruction after those that
/// were listed, whose number, from 1 on, is the error's number if it has one.
pub proof fn law_binary_is_parsed_to_the_end<E>(bytes: Seq<u8>, grammar: Grammar)
    requires
        bytes.len() <= usize::MAX,
    ensures
        ({
            let start = Cursor { offset: 0, limit: None };
            let cx = Context { grammar, bytes, types: Map::empty(), index: 1 };
            let header = read_header::<E>(bytes, start);
            let listing = read_listing::<E>(cx, header.rest);
            let end = end_of_listing::<E>(cx, header.rest);
            match plan_of_binary::<E>(bytes, grammar).result {
                Ok(_) => {
                    &&& header.rest.offset == 20
                    &&& apart(20, end as int)
                    &&& end <= bytes.len() < end + 4
                },
                Err(state) => {
                    ||| state is HeaderIncorrect
                    ||| state is EndiannessUnsupported
                    ||| state matches State::HeaderIncomplete(error) && apart(
                        0,
                        error_offset(error) as int,
                    ) && error_offset(error) < 20 && error_offset(error) <= bytes.len()
                    ||| {
                        &&& header.rest.offset == 20
                        &&& apart(20, end as int)
                        &&& is_located(
                            Context { index: 1 + listing.instructions.len(), ..cx },
                            end,
                            state,
                        )
                    }
                },
            }
        }),
{
    let start = Cursor { offset: 0, limit: None };
    let cx = Context { grammar, bytes, types: Map::empty(), index: 1 };
    if bytes.len() < 20 {
        law_short_header_is_incomplete::<E>(bytes, grammar);
    } else {
        law_magic_number_decides::<E>(bytes);
        law_listing_goes_to_the_end::<E>(cx, Cursor { offset: 20, limit: None });
    }
}

/// What is wrong with an operand carries the number of the instruction, if it carries
/// a number, and is never that operands are left over.
proof fn lemma_slots_numbered<E>(
    cx: Context,
    slots: Seq<LogicalOperand>,
    k: int,
    draft: Draft,
    at: Cursor,
)
    requires
        cx.index <= usize::MAX,
    ensures
        read_slots::<E>(cx, slots, k, draft, at).result matches Err(state) ==> {
            &&& state_index(state) matches Some(number) ==> number == cx.index
            &&& !(state is OperandExceeded)
        },
    decreases slots.len() - k, cx.bytes.len() - at.offset,
{
    reveal(read_slot);
    if 0 <= k < slots.len() && at.limit != Some(0nat) {
        let slot = read_slot::<E>(cx, slots[k].kind, draft, at);
        lemma_slot_onward::<E>(cx, slots[k].kind, draft, at);
        if let Ok(longer) = slot.result {
            match slots[k].quantifier {
                OperandQuantifier::ZeroOrMore => {
                    lemma_slots_numbered::<E>(cx, slots, k, longer, slot.rest);
                },
                _ => {
                    lemma_slots_numbered::<E>(cx, slots, k + 1, longer, slot.rest);
                },
            }
        }
    }
}

/// Where the operands of the instruction with this first word start: behind the
/// word, with as many words allowed as its word count leaves.
pub open spec fn operands_start(at: Cursor, word: Word) -> Cursor {
    Cursor { offset: at.offset + 4, limit: Some((word_count(word) - 1) as nat) }
}

/// Whatever is found wrong with an instruction carries the number of that
/// instruction, if it carries a number.
pub proof fn law_errors_carry_the_instruction_number<E>(cx: Context, at: Cursor)
    requires
        cx.index <= usize::MAX,
    ensures
        read_inst::<E>(cx, at).result matches Err(state) ==> (state_index(
            state,
        ) matches Some(number) ==> number == cx.index),
{
    reveal(read_inst);
    if let Ok(word) = read_word(cx.bytes, at).result {
        if let Some(instruction) = cx.grammar.instruction(opcode(word)) {
            lemma_slots_numbered::<E>(
                cx,
                instruction.operands@,
                0,
                empty_draft(),
                operands_start(at, word),
            );
        }
    }
}

/// What is wrong with an operand is what is reported, and there are extra operands
/// if and only if nothing is wrong with the operands and words are left over.
pub proof fn law_operand_errors_are_reported<E>(
    cx: Context,
    at: Cursor,
    word: Word,
    instruction: InstructionGrammar,
)
    requires
        cx.index <= usize::MAX,
        read_word(cx.bytes, at).result == Ok::<Word, DecodeError>(word),
        word_count(word) != 0,
        cx.grammar.instruction(opcode(word)) == Some(instruction),
    ensures
        ({
            let operands = read_slots::<E>(
                cx,
                instruction.operands@,
                0,
                empty_draft(),
                operands_start(at, word),
            );
            let inst = read_inst::<E>(cx, at).result;
            &&& operands.result matches Err(state) ==> inst == Err::<InstructionView, State<E>>(
                state,
            )
            &&& (inst matches Err(State::OperandExceeded(_, _))) <==> operands.result is Ok
                && operands.rest.limit != Some(0nat)
            &&& inst is Ok <==> operands.result is Ok && operands.rest.limit == Some(0nat)
        }),
{
    reveal(read_inst);
    lemma_slots_numbered::<E>(
        cx,
        instruction.operands@,
        0,
        empty_draft(),
        operands_start(at, word),
    );
}

/// Whether a constant can be of this type.
pub open spec fn is_supported(found: Type) -> bool {
    match found {
        Type::Integer(width, _) => width == 32 || width == 64,
        Type::Float(width) => width == 32 || width == 64,
    }
}

/// The types that a constant can be of are those of 32 and of 64 bits.
pub proof fn law_supported_widths(width: u32, signed: bool)
    ensures
        is_supported(Type::Integer(width, signed)) <==> width == 32 || width == 64,
        is_supported(Type::Float(width)) <==> width == 32 || width == 64,
{
}

/// Logical operands that leave words over are read in the same way if more follow.
proof fn lemma_slots_go_on<E>(
    cx: Context,
    slots: Seq<LogicalOperand>,
    j: int,
    k: int,
    draft: Draft,
    at: Cursor,
)
    requires
        0 <= j <= k <= slots.len(),
    ensures
        ({
            let first = read_slots::<E>(cx, slots.take(k), j, draft, at);
            first.result matches Ok(longer) ==> first.rest.limit != Some(0nat) ==> read_slots::<E>(
                cx,
                slots,
                j,
                draft,
                at,
            ) == read_slots::<E>(cx, slots, k, longer, first.rest)
        }),
    decreases slots.len() - j, cx.bytes.len() - at.offset,
{
    if j < k && at.limit != Some(0nat) {
        assert(slots.take(k)[j] == slots[j]);
        let slot = read_slot::<E>(cx, slots[j].kind, draft, at);
        lemma_slot_onward::<E>(cx, slots[j].kind, draft, at);
        if let Ok(longer) = slot.result {
            match slots[j].quantifier {
                OperandQuantifier::ZeroOrMore => {
                    lemma_slots_go_on::<E>(cx, slots, j, k, longer, slot.rest);
                },
                _ => {
                    lemma_slots_go_on::<E>(cx, slots, j + 1, k, longer, slot.rest);
                },
            }
        }
    }
}

/// A constant of an unsupported type is reported as such, at the offset of its
/// number and with the number of the instruction: whenever the logical operands
/// before the number have been read, words are left for it, and the result type is
/// known and of an unsupported width.
#[verifier::rlimit(50)]
pub proof fn law_unsupported_types_are_reported<E>(
    cx: Context,
    at: Cursor,
    word: Word,
    instruction: InstructionGrammar,
    k: int,
)
    requires
        read_word(cx.bytes, at).result == Ok::<Word, DecodeError>(word),
        word_count(word) != 0,
        cx.grammar.instruction(opcode(word)) == Some(instruction),
        0 <= k < instruction.operands@.len(),
        instruction.operands@[k].kind == OperandKind::LiteralContextDependentNumber,
        ({
            let before = read_slots::<E>(
                cx,
                instruction.operands@.take(k),
                0,
                empty_draft(),
                operands_start(at, word),
            );
            &&& before.rest.limit != Some(0nat)
            &&& before.result matches Ok(draft)
            &&& draft.result_type matches Some(type_id)
            &&& cx.types.contains_key(type_id)
            &&& !is_supported(cx.types[type_id])
        }),
    ensures
        ({
            let before = read_slots::<E>(
                cx,
                instruction.operands@.take(k),
                0,
                empty_draft(),
                operands_start(at, word),
            );
            read_inst::<E>(cx, at).result == Err::<InstructionView, State<E>>(
                State::TypeUnsupported(before.rest.offset as usize, cx.index as usize),
            )
        }),
{
    let slots = instruction.operands@;
    let start = operands_start(at, word);
    let before = read_slots::<E>(cx, slots.take(k), 0, empty_draft(), start);
    lemma_slots_go_on::<E>(cx, slots, 0, k, empty_draft(), start);
    assert(read_slots::<E>(cx, slots, 0, empty_draft(), start).result == Err::<Draft, State<E>>(
        State::TypeUnsupported(before.rest.offset as usize, cx.index as usize),
    )) by {
        reveal(read_slot);
    }
    reveal(read_inst);
}

/// An operation that the grammar does not have is reported as such, behind the word
/// that should name it and with the number of the instruction: whenever the logical
/// operands before it have been read, and the word is there and in the instruction.
#[verifier::rlimit(50)]
pub proof fn law_unknown_operations_are_reported<E>(
    cx: Context,
    at: Cursor,
    word: Word,
    instruction: InstructionGrammar,
    k: int,
)
    requires
        read_word(cx.bytes, at).result == Ok::<Word, DecodeError>(word),
        word_count(word) != 0,
        cx.grammar.instruction(opcode(word)) == Some(instruction),
        0 <= k < instruction.operands@.len(),
        instruction.operands@[k].kind == OperandKind::LiteralSpecConstantOpInteger,
        ({
            let before = read_slots::<E>(
                cx,
                instruction.operands@.take(k),
                0,
                empty_draft(),
                operands_start(at, word),
            );
            let here = before.rest.offset;
            &&& before.result is Ok
            &&& before.rest.limit != Some(0nat)
            &&& here + 4 <= cx.bytes.len()
            &&& forall|i: int|
                0 <= i < cx.grammar.instructions().len() ==> (
                #[trigger] cx.grammar.instructions()[i]).class.opcode != cx.bytes[here as int]
                    + 0x100 * cx.bytes[here as int + 1]
        }),
    ensures
        ({
            let before = read_slots::<E>(
                cx,
                instruction.operands@.take(k),
                0,
                empty_draft(),
                operands_start(at, word),
            );
            read_inst::<E>(cx, at).result == Err::<InstructionView, State<E>>(
                State::SpecConstantOpIntegerIncorrect(
                    (before.rest.offset + 4) as usize,
                    cx.index as usize,
                ),
            )
        }),
{
    let slots = instruction.operands@;
    let start = operands_start(at, word);
    let before = read_slots::<E>(cx, slots.take(k), 0, empty_draft(), start);
    lemma_slots_go_on::<E>(cx, slots, 0, k, empty_draft(), start);
    let number = word_at(cx.bytes, before.rest.offset as int);
    let code = (number % 0x1_0000) as u16;
    assert(code == cx.bytes[before.rest.offset as int] + 0x100 * cx.bytes[before.rest.offset as int
        + 1]);
    law_every_opcode_is_found(cx.grammar, code);
    assert(read_slots::<E>(cx, slots, 0, empty_draft(), start).result == Err::<Draft, State<E>>(
        State::SpecConstantOpIntegerIncorrect(
            (before.rest.offset + 4) as usize,
            cx.index as usize,
        ),
    )) by {
        reveal(read_slot);
    }
    reveal(read_inst);
}

/// In a constant that consists of its result type, its result id and its number, an
/// unsupported type is reported at the fourth word.
#[verifier::rlimit(50)]
pub proof fn law_constants_of_unsupported_types_are_reported<E>(
    cx: Context,
    at: Cursor,
    word: Word,
    instruction: InstructionGrammar,
)
    requires
        at.limit is None,
        at.offset + 12 <= cx.bytes.len(),
        word == word_at(cx.bytes, at.offset as int),
        word_count(word) >= 4,
        cx.grammar.instruction(opcode(word)) == Some(instruction),
        instruction.operands@.len() >= 3,
        instruction.operands@[0].kind == OperandKind::IdResultType,
        instruction.operands@[0].quantifier != OperandQuantifier::ZeroOrMore,
        instruction.operands@[1].kind == OperandKind::IdResult,
        instruction.operands@[1].quantifier != OperandQuantifier::ZeroOrMore,
        instruction.operands@[2].kind == OperandKind::LiteralContextDependentNumber,
        ({
            let type_id = word_at(cx.bytes, at.offset as int + 4);
            cx.types.contains_key(type_id) && !is_supported(cx.types[type_id])
        }),
    ensures
        read_inst::<E>(cx, at).result == Err::<InstructionView, State<E>>(
            State::TypeUnsupported((at.offset + 12) as usize, cx.index as usize),
        ),
{
    let slots = instruction.operands@.take(2);
    let start = operands_start(at, word);
    reveal(read_slot);
    reveal_with_fuel(read_slots, 4);
    assert(slots[0] == instruction.operands@[0] && slots[1] == instruction.operands@[1]);
    law_unsupported_types_are_reported::<E>(cx, at, word, instruction, 2);
}

} // verus!
