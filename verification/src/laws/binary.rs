//! What becomes of a whole binary.

use crate::consumer::Event;
use crate::decoder::{read_word, Cursor, DecodeError};
use crate::grammar::{
    BasicKind, Grammar, InstructionGrammar, LogicalOperand, OperandKind, OperandQuantifier,
};
use crate::laws::conformance::{conforms, law_parsed_instructions_conform};
use crate::laws::encoding::{
    instruction_bytes, law_parsing_loses_nothing, lemma_instruction_has_opcode,
    operations_are_whole, results_come_first,
};
use crate::laws::errors::{bears_out, law_errors_are_borne_out};
use crate::laws::header::{
    law_magic_number_decides, law_short_header_is_incomplete, law_version_round_trip,
    law_words_are_little_endian, lemma_header_words,
};
use crate::laws::types::{
    law_float_types_are_declared, law_integer_types_are_declared, law_types_last, types_after_all,
};
use crate::mr::{InstructionView, OperandView};
use crate::parser::plan_of_binary;
use crate::spirv::{word_at, Word};
use crate::state::State;
use crate::syntax::{
    after_instruction, empty_draft, law_word_count_is_used_up, lemma_slot_onward, opcode,
    read_header, read_ids, read_inst, read_listing, read_slot, read_slots, read_spec_constant_op,
    word_count, Context, Draft, Listing,
};
use crate::tracker::Type;
use crate::version::version_of_word;
use vstd::prelude::*;

verus! {

/// The word count of the instruction at an offset: the two upper bytes of its first
/// word.
pub open spec fn count_at(bytes: Seq<u8>, offset: nat) -> nat {
    (bytes[offset as int + 2] + 0x100 * bytes[offset as int + 3]) as nat
}

/// The opcode of the instruction at an offset: the two lower bytes of its first word.
pub open spec fn code_at(bytes: Seq<u8>, offset: nat) -> nat {
    (bytes[offset as int] + 0x100 * bytes[offset as int + 1]) as nat
}

/// Where the `n`-th instruction starts, counted from 0, if the first one starts at an
/// offset: each one takes as many words as it says.
pub open spec fn start_of(bytes: Seq<u8>, from: nat, n: nat) -> nat
    decreases n,
{
    if n == 0 {
        from
    } else {
        let before = start_of(bytes, from, (n - 1) as nat);
        before + 4 * count_at(bytes, before)
    }
}

/// The instructions that a consumer is told about behind the header.
pub open spec fn sent(events: Seq<Event>) -> Seq<InstructionView> {
    Seq::new((events.len() - 2) as nat, |k: int| events[k + 2]->Instruction_0)
}

proof fn lemma_first_word(bytes: Seq<u8>, at: Cursor)
    requires
        at.limit is None,
    ensures
        read_word(bytes, at).result matches Ok(word) ==> word == word_at(bytes, at.offset as int)
            && word_count(word) == count_at(bytes, at.offset) && opcode(word) == code_at(
            bytes,
            at.offset,
        ),
{
}

/// What the `n`-th of some instructions is read against.
spec fn context_at(cx: Context, insts: Seq<InstructionView>, n: nat) -> Context {
    Context { types: types_after_all(cx.types, insts, n), index: cx.index + n, ..cx }
}

spec fn cursor_at(bytes: Seq<u8>, from: nat, n: nat) -> Cursor {
    Cursor { offset: start_of(bytes, from, n), limit: None }
}

#[verifier::rlimit(50)]
proof fn lemma_listing_from<E>(cx: Context, at: Cursor, n: nat)
    requires
        at.limit is None,
        n <= read_listing::<E>(cx, at).instructions.len(),
    ensures
        ({
            let listing = read_listing::<E>(cx, at);
            read_listing::<E>(
                context_at(cx, listing.instructions, n),
                cursor_at(cx.bytes, at.offset, n),
            ) == Listing::<E> {
                instructions: listing.instructions.skip(n as int),
                end: listing.end,
            }
        }),
    decreases n,
{
    let listing = read_listing::<E>(cx, at);
    let insts = listing.instructions;
    if n == 0 {
        assert(insts.skip(0) =~= insts);
        assert(cursor_at(cx.bytes, at.offset, 0) == at);
        assert(context_at(cx, insts, 0) == cx);
    } else {
        let m = (n - 1) as nat;
        lemma_listing_from::<E>(cx, at, m);
        let here = context_at(cx, insts, m);
        let place = cursor_at(cx.bytes, at.offset, m);
        let whole = read_listing::<E>(here, place);
        let parse = read_inst::<E>(here, place);
        law_word_count_is_used_up::<E>(here, place);
        lemma_first_word(cx.bytes, place);
        assert(whole.instructions.len() > 0);
        assert(whole.instructions[0] == insts[m as int]);
        let inst = parse.result->Ok_0;
        let rest = read_listing::<E>(after_instruction(here, inst), parse.rest);
        assert(whole.instructions == seq![inst] + rest.instructions);
        assert(inst == insts[m as int]);
        assert(after_instruction(here, inst) == context_at(cx, insts, n));
        assert(parse.rest == cursor_at(cx.bytes, at.offset, n));
        assert(rest.instructions =~= insts.skip(n as int)) by {
            assert(rest.instructions =~= whole.instructions.skip(1));
        }
    }
}

/// Each instruction is read where it starts, against what those before it declared.
#[verifier::rlimit(50)]
proof fn lemma_instruction_at<E>(cx: Context, at: Cursor, n: nat)
    requires
        at.limit is None,
        n <= read_listing::<E>(cx, at).instructions.len(),
    ensures
        ({
            let listing = read_listing::<E>(cx, at);
            let found = read_inst::<E>(
                context_at(cx, listing.instructions, n),
                cursor_at(cx.bytes, at.offset, n),
            ).result;
            found == if n < listing.instructions.len() {
                Ok::<InstructionView, State<E>>(listing.instructions[n as int])
            } else {
                Err::<InstructionView, State<E>>(listing.end)
            }
        }),
{
    let listing = read_listing::<E>(cx, at);
    lemma_listing_from::<E>(cx, at, n);
    let here = context_at(cx, listing.instructions, n);
    let place = cursor_at(cx.bytes, at.offset, n);
    let whole = read_listing::<E>(here, place);
    let parse = read_inst::<E>(here, place);
    if n < listing.instructions.len() {
        assert(whole.instructions.len() > 0);
        assert(whole.instructions[0] == listing.instructions[n as int]);
        let rest = read_listing::<E>(after_instruction(here, parse.result->Ok_0), parse.rest);
        assert(whole.instructions == seq![parse.result->Ok_0] + rest.instructions);
    } else {
        assert(whole.instructions.len() == 0);
        if let Ok(inst) = parse.result {
            let rest = read_listing::<E>(after_instruction(here, inst), parse.rest);
            assert(whole.instructions == seq![inst] + rest.instructions);
        }
    }
}

proof fn lemma_same_types(
    types: Map<Word, Type>,
    first: Seq<InstructionView>,
    second: Seq<InstructionView>,
    n: nat,
)
    requires
        forall|m: int| 0 <= m < n ==> #[trigger] first[m] == second[m],
    ensures
        types_after_all(types, first, n) == types_after_all(types, second, n),
    decreases n,
{
    if n > 0 {
        lemma_same_types(types, first, second, (n - 1) as nat);
    }
}

spec fn start_context(bytes: Seq<u8>, grammar: Grammar) -> Context {
    Context { grammar, bytes, types: Map::empty(), index: 1 }
}

spec fn behind_header() -> Cursor {
    Cursor { offset: 20, limit: None }
}

/// What the header of a binary is, byte by byte. Fewer than twenty bytes are no
/// header. The first four decide whether there is one, or one of the other
/// endianness. The seventh is the major version and the sixth the minor version,
/// and the bound is the fourth word. Only a binary with a header has anything sent
/// behind `initialize`.
#[verifier::rlimit(50)]
pub proof fn law_binary_has_a_header<E>(bytes: Seq<u8>, grammar: Grammar)
    ensures
        ({
            let whole = plan_of_binary::<E>(bytes, grammar);
            let magic = bytes.take(4);
            &&& whole.events.len() >= 1
            &&& whole.events[0] is Initialize
            &&& if bytes.len() < 20 {
                &&& whole.events.len() == 1
                &&& whole.result == Err::<(), State<E>>(
                    State::HeaderIncomplete(
                        DecodeError::StreamExpected((bytes.len() / 4 * 4) as usize),
                    ),
                )
            } else if magic == seq![0x03u8, 0x02, 0x23, 0x07] {
                &&& whole.events.len() >= 2
                &&& whole.events[1] matches Event::Header(header)
                &&& version_of_word(header.version) == (bytes[6], bytes[5])
                &&& header.version == 0x1_0000 * bytes[6] + 0x100 * bytes[5]
                &&& header.bound == bytes[12] + 0x100 * bytes[13] + 0x1_0000 * bytes[14]
                    + 0x100_0000 * bytes[15]
            } else if magic == seq![0x07u8, 0x23, 0x02, 0x03] {
                &&& whole.events.len() == 1
                &&& whole.result == Err::<(), State<E>>(State::EndiannessUnsupported)
            } else {
                &&& whole.events.len() == 1
                &&& whole.result == Err::<(), State<E>>(State::HeaderIncorrect)
            }
        }),
{
    if bytes.len() < 20 {
        law_short_header_is_incomplete::<E>(bytes, grammar);
    } else {
        let start = Cursor { offset: 0, limit: None };
        let header = read_header::<E>(bytes, start);
        law_magic_number_decides::<E>(bytes);
        lemma_plan_of_header::<E>(bytes, grammar);
        if header.result is Ok {
            lemma_header_fields::<E>(bytes);
        } else {
            assert(seq![0x03u8, 0x02, 0x23, 0x07][0] != seq![0x07u8, 0x23, 0x02, 0x03][0]);
        }
    }
}

proof fn lemma_plan_of_header<E>(bytes: Seq<u8>, grammar: Grammar)
    ensures
        ({
            let whole = plan_of_binary::<E>(bytes, grammar);
            let header = read_header::<E>(bytes, Cursor { offset: 0, limit: None }).result;
            &&& whole.events.len() >= 1
            &&& whole.events[0] is Initialize
            &&& match header {
                Ok(found) => whole.events.len() >= 2 && whole.events[1] == Event::Header(found),
                Err(state) => whole.events.len() == 1 && whole.result == Err::<(), State<E>>(
                    state,
                ),
            }
        }),
{
}

proof fn lemma_middle_bytes(bytes: Seq<u8>)
    ensures
        version_of_word(word_at(bytes, 4)) == (bytes[6], bytes[5]),
{
    law_words_are_little_endian(bytes, 4);
}

#[verifier::rlimit(50)]
proof fn lemma_header_fields<E>(bytes: Seq<u8>)
    requires
        bytes.len() >= 20,
    ensures
        read_header::<E>(bytes, Cursor { offset: 0, limit: None }).result matches Ok(header) ==> {
            &&& version_of_word(header.version) == (bytes[6], bytes[5])
            &&& header.version == 0x1_0000 * bytes[6] + 0x100 * bytes[5]
            &&& header.bound == bytes[12] + 0x100 * bytes[13] + 0x1_0000 * bytes[14] + 0x100_0000
                * bytes[15]
        },
{
    lemma_header_words(bytes);
    lemma_middle_bytes(bytes);
    law_version_round_trip(bytes[6], bytes[5]);
}

/// Whether no logical operand is the operation of an `OpSpecConstantOp`.
pub open spec fn has_no_operation(slots: Seq<LogicalOperand>) -> bool {
    forall|k: int|
        0 <= k < slots.len() ==> !((#[trigger] slots[k]).kind is LiteralSpecConstantOpInteger)
}

proof fn lemma_no_operation<E>(
    cx: Context,
    slots: Seq<LogicalOperand>,
    k: int,
    draft: Draft,
    at: Cursor,
)
    requires
        has_no_operation(slots),
    ensures
        operations_are_whole::<E>(cx, slots, k, draft, at),
    decreases slots.len() - k, cx.bytes.len() - at.offset,
{
    if 0 <= k < slots.len() && at.limit != Some(0nat) {
        let slot = read_slot::<E>(cx, slots[k].kind, draft, at);
        lemma_slot_onward::<E>(cx, slots[k].kind, draft, at);
        if let Ok(longer) = slot.result {
            match slots[k].quantifier {
                OperandQuantifier::ZeroOrMore => {
                    lemma_no_operation::<E>(cx, slots, k, longer, slot.rest);
                },
                _ => {
                    lemma_no_operation::<E>(cx, slots, k + 1, longer, slot.rest);
                },
            }
        }
    }
}

/// A binary with a header is read instruction by instruction, each behind the one
/// before it, from the twentieth byte on. What is sent for an instruction is one of
/// the grammar, with the opcode that stands there. It conforms to the grammar, and
/// its bytes are those that stand there; but the bytes of an `OpSpecConstantOp` may
/// have more in the word of the operation.
#[verifier::rlimit(50)]
pub proof fn law_binary_is_sent_instruction_by_instruction<E>(
    bytes: Seq<u8>,
    grammar: Grammar,
    n: nat,
    inst: InstructionView,
)
    requires
        n + 2 < plan_of_binary::<E>(bytes, grammar).events.len(),
        plan_of_binary::<E>(bytes, grammar).events[n as int + 2] == Event::Instruction(inst),
    ensures
        ({
            let events = plan_of_binary::<E>(bytes, grammar).events;
            let start = start_of(bytes, 20, n);
            let end = start + 4 * count_at(bytes, start);
            &&& 20 <= start < end <= bytes.len()
            &&& inst.class.opcode == code_at(bytes, start)
            &&& grammar.instruction(inst.class.opcode) matches Some(instruction)
            &&& instruction.class == inst.class
            &&& results_come_first(instruction.operands@) ==> conforms(
                grammar,
                types_after_all(Map::empty(), sent(events), n),
                inst,
            )
            &&& results_come_first(instruction.operands@) && has_no_operation(
                instruction.operands@,
            ) ==> bytes.subrange(start as int, end as int) == instruction_bytes(inst)
        }),
{
    law_binary_has_a_header::<E>(bytes, grammar);
    law_magic_number_decides::<E>(bytes);
    let cx = start_context(bytes, grammar);
    let listing = read_listing::<E>(cx, behind_header());
    let events = plan_of_binary::<E>(bytes, grammar).events;
    assert(n < listing.instructions.len());
    assert(listing.instructions[n as int] == inst);
    lemma_instruction_at::<E>(cx, behind_header(), n);
    let here = context_at(cx, listing.instructions, n);
    let place = cursor_at(bytes, 20, n);
    assert forall|m: int| 0 <= m < n implies #[trigger] sent(events)[m]
        == listing.instructions[m] by {
        assert(events[m + 2] == Event::Instruction(listing.instructions[m]));
    }
    lemma_same_types(Map::empty(), sent(events), listing.instructions, n);
    law_word_count_is_used_up::<E>(here, place);
    lemma_first_word(bytes, place);
    lemma_start_grows(bytes, 20, n);
    assert({
        let word = read_word(bytes, place).result->Ok_0;
        grammar.instruction(opcode(word)) matches Some(instruction) && instruction.class
            == inst.class && opcode(word) == inst.class.opcode
    }) by {
        reveal(read_inst);
        lemma_instruction_has_opcode(grammar, opcode(read_word(bytes, place).result->Ok_0));
    }
    let instruction = grammar.instruction(inst.class.opcode)->0;
    if results_come_first(instruction.operands@) {
        law_parsed_instructions_conform::<E>(here, place);
        if has_no_operation(instruction.operands@) {
            let word = read_word(bytes, place).result->Ok_0;
            lemma_no_operation::<E>(
                here,
                instruction.operands@,
                0,
                empty_draft(),
                Cursor { offset: place.offset + 4, limit: Some((word_count(word) - 1) as nat) },
            );
            law_parsing_loses_nothing::<E>(here, place);
        }
    }
}

proof fn lemma_start_grows(bytes: Seq<u8>, from: nat, n: nat)
    ensures
        from <= start_of(bytes, from, n),
    decreases n,
{
    if n > 0 {
        lemma_start_grows(bytes, from, (n - 1) as nat);
    }
}

/// What the instruction behind the first `n` that were sent is read against.
pub open spec fn context_behind(
    bytes: Seq<u8>,
    grammar: Grammar,
    events: Seq<Event>,
    n: nat,
) -> Context {
    Context {
        grammar,
        bytes,
        types: types_after_all(Map::empty(), sent(events), n),
        index: n + 1,
    }
}

#[verifier::rlimit(50)]
proof fn lemma_context_behind<E>(bytes: Seq<u8>, grammar: Grammar, n: nat)
    requires
        bytes.len() >= 20,
        bytes.take(4) == seq![0x03u8, 0x02, 0x23, 0x07],
        n <= read_listing::<E>(start_context(bytes, grammar), behind_header()).instructions.len(),
    ensures
        ({
            let events = plan_of_binary::<E>(bytes, grammar).events;
            let listing = read_listing::<E>(start_context(bytes, grammar), behind_header());
            &&& context_behind(bytes, grammar, events, n) == context_at(
                start_context(bytes, grammar),
                listing.instructions,
                n,
            )
            &&& events.len() == 2 + listing.instructions.len() + if listing.end is Complete {
                1int
            } else {
                0int
            }
            &&& forall|k: int|
                0 <= k < listing.instructions.len() ==> #[trigger] events[k + 2]
                    == Event::Instruction(listing.instructions[k])
            &&& listing.end is Complete ==> events.last() is Finalize
            &&& plan_of_binary::<E>(bytes, grammar).result == if listing.end is Complete {
                Ok::<(), State<E>>(())
            } else {
                Err::<(), State<E>>(listing.end)
            }
        }),
{
    law_magic_number_decides::<E>(bytes);
    let cx = start_context(bytes, grammar);
    let listing = read_listing::<E>(cx, behind_header());
    let events = plan_of_binary::<E>(bytes, grammar).events;
    assert forall|k: int| 0 <= k < listing.instructions.len() implies #[trigger] events[k + 2]
        == Event::Instruction(listing.instructions[k]) by {}
    assert forall|m: int| 0 <= m < n implies #[trigger] sent(events)[m]
        == listing.instructions[m] by {
        assert(events[m + 2] == Event::Instruction(listing.instructions[m]));
    }
    lemma_same_types(Map::empty(), sent(events), listing.instructions, n);
}

/// A binary with a header is sent up to its end, or up to an instruction that cannot
/// be parsed, and nothing else comes behind the header. In the first case `finalize`
/// follows, and no whole word is left. In the second case the result is what is
/// wrong with that instruction, which stands right behind those that were sent, and
/// the binary bears it out.
#[verifier::rlimit(50)]
pub proof fn law_binary_ends<E>(bytes: Seq<u8>, grammar: Grammar)
    requires
        20 <= bytes.len() <= usize::MAX,
        bytes.take(4) == seq![0x03u8, 0x02, 0x23, 0x07],
    ensures
        ({
            let whole = plan_of_binary::<E>(bytes, grammar);
            let n = (whole.events.len() - if whole.result is Ok {
                3int
            } else {
                2int
            }) as nat;
            let start = start_of(bytes, 20, n);
            &&& whole.events.len() >= 2
            &&& start <= bytes.len()
            &&& forall|k: int| 2 <= k < n + 2 ==> (#[trigger] whole.events[k]) is Instruction
            &&& match whole.result {
                Ok(_) => {
                    &&& whole.events.len() == n + 3
                    &&& whole.events.last() is Finalize
                    &&& bytes.len() < start + 4
                },
                Err(state) => {
                    let cx = context_behind(bytes, grammar, whole.events, n);
                    &&& whole.events.len() == n + 2
                    &&& !(state is Complete)
                    &&& bears_out(cx, start, state)
                    &&& read_inst::<E>(cx, Cursor { offset: start, limit: None }).result == Err::<
                        InstructionView,
                        State<E>,
                    >(state)
                },
            }
        }),
{
    let cx = start_context(bytes, grammar);
    let listing = read_listing::<E>(cx, behind_header());
    let whole = plan_of_binary::<E>(bytes, grammar);
    let n = listing.instructions.len();
    lemma_context_behind::<E>(bytes, grammar, n);
    lemma_instruction_at::<E>(cx, behind_header(), n);
    lemma_starts_inside::<E>(cx, n);
    lemma_numbers_fit::<E>(cx, n);
    assert forall|k: int| 2 <= k < n + 2 implies (#[trigger] whole.events[k]) is Instruction by {
        assert(whole.events[(k - 2) + 2] == Event::Instruction(listing.instructions[k - 2]));
    }
    law_errors_are_borne_out::<E>(
        context_at(cx, listing.instructions, n),
        cursor_at(bytes, 20, n),
    );
}

proof fn lemma_starts_inside<E>(cx: Context, n: nat)
    requires
        cx.bytes.len() >= 20,
        n <= read_listing::<E>(cx, behind_header()).instructions.len(),
    ensures
        start_of(cx.bytes, 20, n) <= cx.bytes.len(),
        20 + 4 * n <= start_of(cx.bytes, 20, n),
    decreases n,
{
    if n > 0 {
        let m = (n - 1) as nat;
        let insts = read_listing::<E>(cx, behind_header()).instructions;
        lemma_starts_inside::<E>(cx, m);
        lemma_instruction_at::<E>(cx, behind_header(), m);
        law_word_count_is_used_up::<E>(context_at(cx, insts, m), cursor_at(cx.bytes, 20, m));
        lemma_first_word(cx.bytes, cursor_at(cx.bytes, 20, m));
    }
}

proof fn lemma_numbers_fit<E>(cx: Context, n: nat)
    requires
        20 <= cx.bytes.len() <= usize::MAX,
        cx.index == 1,
        n <= read_listing::<E>(cx, behind_header()).instructions.len(),
    ensures
        cx.index + n <= usize::MAX,
{
    lemma_starts_inside::<E>(cx, n);
}

/// Whether an instruction has a result type, a result id and a number, and nothing
/// else.
pub open spec fn is_of_constants(instruction: InstructionGrammar) -> bool {
    let slots = instruction.operands@;
    &&& slots.len() == 3
    &&& slots[0].kind is IdResultType && slots[0].quantifier is One
    &&& slots[1].kind is IdResult && slots[1].quantifier is One
    &&& slots[2].kind is LiteralContextDependentNumber && slots[2].quantifier is One
}

#[verifier::rlimit(50)]
proof fn lemma_constant_read<E>(cx: Context, at: Cursor, instruction: InstructionGrammar)
    requires
        at.limit is None,
        read_inst::<E>(cx, at).result is Ok,
        cx.grammar.instruction(code_at(cx.bytes, at.offset) as u16) == Some(instruction),
        is_of_constants(instruction),
    ensures
        ({
            let inst = read_inst::<E>(cx, at).result->Ok_0;
            let o = at.offset as int;
            let low = word_at(cx.bytes, o + 12);
            let high = word_at(cx.bytes, o + 16);
            let wide = (low + 0x1_0000_0000 * high) as u64;
            let type_id = word_at(cx.bytes, o + 4);
            &&& inst.result_type == Some(type_id)
            &&& inst.result_id == Some(word_at(cx.bytes, o + 8))
            &&& inst.operands == seq![
                if cx.types.contains_key(type_id) {
                    match cx.types[type_id] {
                        Type::Integer(64, _) => OperandView::LiteralInt64(wide),
                        Type::Float(64) => OperandView::LiteralFloat64(wide),
                        Type::Float(_) => OperandView::LiteralFloat32(low),
                        _ => OperandView::LiteralInt32(low),
                    }
                } else {
                    OperandView::LiteralInt32(low)
                },
            ]
            &&& cx.types.contains_key(type_id) ==> match cx.types[type_id] {
                Type::Integer(width, _) => width == 32 || width == 64,
                Type::Float(width) => width == 32 || width == 64,
            }
        }),
{
    reveal(read_inst);
    reveal(read_slot);
    reveal_with_fuel(read_slots, 4);
    lemma_first_word(cx.bytes, at);
    let inst = read_inst::<E>(cx, at).result->Ok_0;
    let word = read_word(cx.bytes, at).result->Ok_0;
    assert(opcode(word) == code_at(cx.bytes, at.offset) as u16);
    assert(inst.operands =~= Seq::empty().push(inst.operands[0]));
    assert(inst.operands =~= seq![inst.operands[0]]);
}

/// Whether none of the instructions that were sent from the `i`-th on, up to the
/// `j`-th, has this id as its result id.
pub open spec fn leaves_alone(events: Seq<Event>, i: int, j: int, id: Word) -> bool {
    forall|m: int|
        i <= m < j ==> (#[trigger] events[m + 2])->Instruction_0.result_id != Some(id)
}

proof fn lemma_constant_sent<E>(
    bytes: Seq<u8>,
    grammar: Grammar,
    j: nat,
    constant: InstructionView,
    instruction: InstructionGrammar,
)
    requires
        j + 2 < plan_of_binary::<E>(bytes, grammar).events.len(),
        plan_of_binary::<E>(bytes, grammar).events[j as int + 2] == Event::Instruction(constant),
        grammar.instruction(constant.class.opcode) == Some(instruction),
        is_of_constants(instruction),
    ensures
        ({
            let events = plan_of_binary::<E>(bytes, grammar).events;
            let cx = context_behind(bytes, grammar, events, j);
            let at = Cursor { offset: start_of(bytes, 20, j), limit: None };
            &&& read_inst::<E>(cx, at).result == Ok::<InstructionView, State<E>>(constant)
            &&& grammar.instruction(code_at(bytes, at.offset) as u16) == Some(instruction)
        }),
{
    law_binary_has_a_header::<E>(bytes, grammar);
    law_magic_number_decides::<E>(bytes);
    law_binary_is_sent_instruction_by_instruction::<E>(bytes, grammar, j, constant);
    let cx = start_context(bytes, grammar);
    let listing = read_listing::<E>(cx, behind_header());
    assert(j < listing.instructions.len());
    lemma_context_behind::<E>(bytes, grammar, j);
    lemma_instruction_at::<E>(cx, behind_header(), j);
}

/// A constant whose type an earlier `OpTypeInt` (21) declared, with nothing declared
/// under the same id in between, is an integer of that width, signed or not: the word
/// behind its ids if the width is 32, the two words behind them, the low-order one
/// first, if it is 64. With any other width it is not sent.
#[verifier::rlimit(50)]
pub proof fn law_integer_constants_are_integers<E>(
    bytes: Seq<u8>,
    grammar: Grammar,
    i: nat,
    j: nat,
    declaration: InstructionView,
    constant: InstructionView,
    instruction: InstructionGrammar,
    id: Word,
    width: u32,
    sign: u32,
)
    requires
        i < j,
        j + 2 < plan_of_binary::<E>(bytes, grammar).events.len(),
        plan_of_binary::<E>(bytes, grammar).events[i as int + 2] == Event::Instruction(declaration),
        plan_of_binary::<E>(bytes, grammar).events[j as int + 2] == Event::Instruction(constant),
        leaves_alone(plan_of_binary::<E>(bytes, grammar).events, i as int + 1, j as int, id),
        declaration.class.opcode == 21,
        declaration.result_id == Some(id),
        declaration.operands.len() >= 2,
        declaration.operands[0] == OperandView::LiteralInt32(width),
        declaration.operands[1] == OperandView::LiteralInt32(sign),
        constant.result_type == Some(id),
        grammar.instruction(constant.class.opcode) == Some(instruction),
        is_of_constants(instruction),
    ensures
        ({
            let start = start_of(bytes, 20, j) as int;
            let low = word_at(bytes, start + 12);
            let high = word_at(bytes, start + 16);
            &&& width == 32 || width == 64
            &&& width == 32 ==> constant.operands == seq![OperandView::LiteralInt32(low)]
            &&& width == 64 ==> constant.operands == seq![
                OperandView::LiteralInt64((low + 0x1_0000_0000 * high) as u64),
            ]
            &&& constant.result_id == Some(word_at(bytes, start + 8))
            &&& id == word_at(bytes, start + 4)
        }),
{
    let events = plan_of_binary::<E>(bytes, grammar).events;
    let cx = context_behind(bytes, grammar, events, j);
    let at = Cursor { offset: start_of(bytes, 20, j), limit: None };
    lemma_constant_sent::<E>(bytes, grammar, j, constant, instruction);
    lemma_constant_read::<E>(cx, at, instruction);
    let before = types_after_all(Map::empty(), sent(events), i);
    law_integer_types_are_declared(before, declaration, id, width, sign);
    assert(sent(events)[i as int] == declaration);
    assert forall|m: int| i + 1 <= m < j implies (#[trigger] sent(events)[m]).result_id
        != Some(id) by {
        assert(events[m + 2]->Instruction_0.result_id != Some(id));
    }
    law_types_last(Map::empty(), sent(events), i + 1, j, id);
}

/// A constant whose type an earlier `OpTypeFloat` (22) declared, with nothing declared
/// under the same id in between, is a floating-point number of that width: its bits
/// are the word behind its ids if the width is 32, the two words behind them, the
/// low-order one first, if it is 64. With any other width it is not sent.
#[verifier::rlimit(50)]
pub proof fn law_float_constants_are_floats<E>(
    bytes: Seq<u8>,
    grammar: Grammar,
    i: nat,
    j: nat,
    declaration: InstructionView,
    constant: InstructionView,
    instruction: InstructionGrammar,
    id: Word,
    width: u32,
)
    requires
        i < j,
        j + 2 < plan_of_binary::<E>(bytes, grammar).events.len(),
        plan_of_binary::<E>(bytes, grammar).events[i as int + 2] == Event::Instruction(declaration),
        plan_of_binary::<E>(bytes, grammar).events[j as int + 2] == Event::Instruction(constant),
        leaves_alone(plan_of_binary::<E>(bytes, grammar).events, i as int + 1, j as int, id),
        declaration.class.opcode == 22,
        declaration.result_id == Some(id),
        declaration.operands.len() >= 1,
        declaration.operands[0] == OperandView::LiteralInt32(width),
        constant.result_type == Some(id),
        grammar.instruction(constant.class.opcode) == Some(instruction),
        is_of_constants(instruction),
    ensures
        ({
            let start = start_of(bytes, 20, j) as int;
            let low = word_at(bytes, start + 12);
            let high = word_at(bytes, start + 16);
            &&& width == 32 || width == 64
            &&& width == 32 ==> constant.operands == seq![OperandView::LiteralFloat32(low)]
            &&& width == 64 ==> constant.operands == seq![
                OperandView::LiteralFloat64((low + 0x1_0000_0000 * high) as u64),
            ]
            &&& constant.result_id == Some(word_at(bytes, start + 8))
            &&& id == word_at(bytes, start + 4)
        }),
{
    let events = plan_of_binary::<E>(bytes, grammar).events;
    let cx = context_behind(bytes, grammar, events, j);
    let at = Cursor { offset: start_of(bytes, 20, j), limit: None };
    lemma_constant_sent::<E>(bytes, grammar, j, constant, instruction);
    lemma_constant_read::<E>(cx, at, instruction);
    let before = types_after_all(Map::empty(), sent(events), i);
    law_float_types_are_declared(before, declaration, id, width);
    assert(sent(events)[i as int] == declaration);
    assert forall|m: int| i + 1 <= m < j implies (#[trigger] sent(events)[m]).result_id
        != Some(id) by {
        assert(events[m + 2]->Instruction_0.result_id != Some(id));
    }
    law_types_last(Map::empty(), sent(events), i + 1, j, id);
}

/// A constant whose type no earlier instruction declared is the word behind its ids.
pub proof fn law_constants_of_unknown_types_have_one_word<E>(
    bytes: Seq<u8>,
    grammar: Grammar,
    j: nat,
    constant: InstructionView,
    instruction: InstructionGrammar,
    id: Word,
)
    requires
        j + 2 < plan_of_binary::<E>(bytes, grammar).events.len(),
        plan_of_binary::<E>(bytes, grammar).events[j as int + 2] == Event::Instruction(constant),
        leaves_alone(plan_of_binary::<E>(bytes, grammar).events, 0, j as int, id),
        constant.result_type == Some(id),
        grammar.instruction(constant.class.opcode) == Some(instruction),
        is_of_constants(instruction),
    ensures
        ({
            let start = start_of(bytes, 20, j) as int;
            &&& constant.operands == seq![
                OperandView::LiteralInt32(word_at(bytes, start + 12)),
            ]
            &&& constant.result_id == Some(word_at(bytes, start + 8))
        }),
{
    let events = plan_of_binary::<E>(bytes, grammar).events;
    let cx = context_behind(bytes, grammar, events, j);
    let at = Cursor { offset: start_of(bytes, 20, j), limit: None };
    lemma_constant_sent::<E>(bytes, grammar, j, constant, instruction);
    lemma_constant_read::<E>(cx, at, instruction);
    assert forall|m: int| 0 <= m < j implies (#[trigger] sent(events)[m]).result_id
        != Some(id) by {
        assert(events[m + 2]->Instruction_0.result_id != Some(id));
    }
    law_types_last(Map::empty(), sent(events), 0, j, id);
}

/// Whether an instruction has a result type, a result id and an operation, and nothing
/// else.
pub open spec fn is_of_operations(instruction: InstructionGrammar) -> bool {
    let slots = instruction.operands@;
    &&& slots.len() == 3
    &&& slots[0].kind is IdResultType && slots[0].quantifier is One
    &&& slots[1].kind is IdResult && slots[1].quantifier is One
    &&& slots[2].kind is LiteralSpecConstantOpInteger && slots[2].quantifier is One
}

proof fn lemma_ids_are_words(
    bytes: Seq<u8>,
    slots: Seq<LogicalOperand>,
    k: int,
    operands: Seq<OperandView>,
    at: Cursor,
)
    ensures
        read_ids(bytes, slots, k, operands, at).result matches Ok(all) ==> {
            &&& all.len() >= operands.len()
            &&& forall|i: int| 0 <= i < operands.len() ==> #[trigger] all[i] == operands[i]
            &&& forall|i: int|
                operands.len() <= i < all.len() ==> #[trigger] all[i] == OperandView::IdRef(
                    word_at(bytes, at.offset + 4 * (i - operands.len())),
                )
        },
    decreases slots.len() - k,
{
    if 0 <= k < slots.len() {
        if slots[k].kind == OperandKind::Basic(BasicKind::IdRef) {
            let id = read_word(bytes, at);
            if let Ok(id_word) = id.result {
                let longer = operands.push(OperandView::IdRef(id_word));
                lemma_ids_are_words(bytes, slots, k + 1, longer, id.rest);
                if let Ok(all) = read_ids(bytes, slots, k, operands, at).result {
                    assert forall|i: int| 0 <= i < operands.len() implies #[trigger] all[i]
                        == operands[i] by {
                        assert(all[i] == longer[i]);
                    }
                    assert(all[operands.len() as int] == longer[operands.len() as int]);
                }
            }
        } else {
            lemma_ids_are_words(bytes, slots, k + 1, operands, at);
        }
    }
}

/// Of an instruction with an operation, the operation is the opcode in the low half of
/// the word behind its ids, and its operands are the words behind that.
#[verifier::rlimit(50)]
pub proof fn law_operations_are_read<E>(cx: Context, at: Cursor, instruction: InstructionGrammar)
    requires
        at.limit is None,
        read_inst::<E>(cx, at).result is Ok,
        cx.grammar.instruction(code_at(cx.bytes, at.offset) as u16) == Some(instruction),
        is_of_operations(instruction),
    ensures
        ({
            let inst = read_inst::<E>(cx, at).result->Ok_0;
            let o = at.offset as int;
            &&& inst.result_type == Some(word_at(cx.bytes, o + 4))
            &&& inst.result_id == Some(word_at(cx.bytes, o + 8))
            &&& inst.operands.len() >= 1
            &&& inst.operands[0] matches OperandView::LiteralSpecConstantOpInteger(code)
            &&& code == cx.bytes[o + 12] + 0x100 * cx.bytes[o + 13]
            &&& forall|i: int|
                1 <= i < inst.operands.len() ==> #[trigger] inst.operands[i] == OperandView::IdRef(
                    word_at(cx.bytes, o + 12 + 4 * i),
                )
        }),
{
    reveal(read_inst);
    reveal(read_slot);
    reveal_with_fuel(read_slots, 4);
    lemma_first_word(cx.bytes, at);
    let inst = read_inst::<E>(cx, at).result->Ok_0;
    let o = at.offset as int;
    let number = word_at(cx.bytes, o + 12);
    let code = (number % 0x1_0000) as u16;
    assert(code == cx.bytes[o + 12] + 0x100 * cx.bytes[o + 13]);
    lemma_instruction_has_opcode(cx.grammar, code);
    let word = read_word(cx.bytes, at).result->Ok_0;
    let here = Cursor { offset: at.offset + 12, limit: Some((word_count(word) - 3) as nat) };
    let operation = read_spec_constant_op::<E>(cx, here);
    assert(operation.result is Ok);
    assert(inst.operands =~= operation.result->Ok_0);
    let first = seq![OperandView::LiteralSpecConstantOpInteger(code)];
    let number_read = read_word(cx.bytes, here);
    lemma_ids_are_words(
        cx.bytes,
        cx.grammar.instruction(code)->0.operands@,
        0,
        first,
        number_read.rest,
    );
    assert(inst.operands[0] == first[0]);
}

} // verus!
