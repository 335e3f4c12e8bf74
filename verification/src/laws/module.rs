//! A module that is written down can be parsed.

use crate::consumer::Event;
use crate::decoder::Cursor;
use crate::grammar::Grammar;
use crate::laws::completeness::{holds, law_conforming_instructions_are_parsed, lemma_holds_split};
use crate::laws::conformance::conforms;
use crate::laws::encoding::{instruction_bytes, results_come_first};
use crate::laws::header::{law_version_round_trip, law_words_bytes, lemma_header_words};
use crate::mr::{InstructionView, ModuleHeader};
use crate::parser::{instruction_events, plan_of_binary, Plan};
use crate::spirv::{word_at, words_bytes, MAGIC_NUMBER, Word};
use crate::state::State;
use crate::syntax::{
    after_instruction, law_word_count_is_used_up, read_inst, read_listing, Context, Listing,
};
use crate::tracker::{types_after, Type};
use crate::version::{version_of_word, word_of_version};
use vstd::prelude::*;

verus! {

/// The bytes of the instructions from the `k`-th on.
pub open spec fn listing_bytes(insts: Seq<InstructionView>, k: int) -> Seq<u8>
    decreases insts.len() - k,
{
    if k < 0 || k >= insts.len() {
        Seq::empty()
    } else {
        instruction_bytes(insts[k]) + listing_bytes(insts, k + 1)
    }
}

/// The bytes of a module: its header, and its instructions.
pub open spec fn module_bytes(
    version: Word,
    generator: Word,
    bound: Word,
    reserved: Word,
    insts: Seq<InstructionView>,
) -> Seq<u8> {
    words_bytes(seq![MAGIC_NUMBER, version, generator, bound, reserved]) + listing_bytes(insts, 0)
}

/// Whether an instruction can be written down: it is short enough for its word
/// count, and its results come first.
pub open spec fn is_writable(grammar: Grammar, inst: InstructionView) -> bool {
    &&& instruction_bytes(inst).len() / 4 < 0x1_0000
    &&& grammar.instruction(inst.class.opcode) matches Some(instruction)
    &&& results_come_first(instruction.operands@)
}

/// Whether the instructions from the `k`-th on conform to the grammar, each with the
/// numeric types that those before it have declared.
pub open spec fn all_conform(
    grammar: Grammar,
    types: Map<Word, Type>,
    insts: Seq<InstructionView>,
    k: int,
) -> bool
    decreases insts.len() - k,
{
    0 <= k < insts.len() ==> {
        &&& conforms(grammar, types, insts[k])
        &&& is_writable(grammar, insts[k])
        &&& all_conform(grammar, types_after(types, insts[k]), insts, k + 1)
    }
}

proof fn lemma_listing_found<E>(cx: Context, at: Cursor, insts: Seq<InstructionView>, k: int)
    requires
        0 <= k <= insts.len(),
        at.limit is None,
        all_conform(cx.grammar, cx.types, insts, k),
        holds(cx.bytes, at.offset, listing_bytes(insts, k)),
        cx.bytes.len() < at.offset + listing_bytes(insts, k).len() + 4,
    ensures
        read_listing::<E>(cx, at) == (Listing::<E> {
            instructions: insts.skip(k),
            end: State::Complete,
        }),
    decreases insts.len() - k,
{
    if k < insts.len() {
        let inst = insts[k];
        let later = listing_bytes(insts, k + 1);
        lemma_holds_split(cx.bytes, at.offset, instruction_bytes(inst), later);
        law_conforming_instructions_are_parsed::<E>(cx, at, inst);
        law_word_count_is_used_up::<E>(cx, at);
        let next = Cursor { offset: at.offset + instruction_bytes(inst).len(), limit: None };
        lemma_listing_found::<E>(after_instruction(cx, inst), next, insts, k + 1);
        assert(insts.skip(k) =~= seq![inst] + insts.skip(k + 1));
    } else {
        reveal(read_inst);
        assert(insts.skip(k) =~= Seq::empty());
    }
}

/// A module that conforms to the grammar is parsed as it was written down: the
/// consumer is told to initialize, is given the header and every instruction, and
/// is told to finalize. Up to three bytes behind the last whole word do not matter.
pub proof fn law_module_round_trip<E>(
    grammar: Grammar,
    version: Word,
    generator: Word,
    bound: Word,
    reserved: Word,
    insts: Seq<InstructionView>,
    tail: Seq<u8>,
)
    requires
        all_conform(grammar, Map::empty(), insts, 0),
        tail.len() < 4,
    ensures
        ({
            let (major, minor) = version_of_word(version);
            let header = ModuleHeader { version: word_of_version(major, minor), bound };
            plan_of_binary::<E>(
                module_bytes(version, generator, bound, reserved, insts) + tail,
                grammar,
            ) == Plan::<E> {
                events: (seq![Event::Initialize, Event::Header(header)] + instruction_events(
                    insts,
                )).push(Event::Finalize),
                result: Ok(()),
            }
        }),
{
    let words = seq![MAGIC_NUMBER, version, generator, bound, reserved];
    let head = words_bytes(words);
    let bytes = module_bytes(version, generator, bound, reserved, insts) + tail;
    law_words_bytes(words);
    assert forall|i: int| 0 <= i < 5 implies #[trigger] word_at(bytes, 4 * i) == words[i] by {
        assert(word_at(head, 4 * i) == words[i]);
        assert(forall|j: int| 0 <= j < 20 ==> #[trigger] bytes[j] == head[j]);
    }
    assert(word_at(bytes, 4 * 0int) == MAGIC_NUMBER);
    assert(word_at(bytes, 4 * 1int) == version);
    assert(word_at(bytes, 4 * 3int) == bound);
    lemma_header_words(bytes);
    let start = Cursor { offset: 20, limit: None };
    let cx = Context { grammar, bytes, types: Map::empty(), index: 1 };
    assert(bytes.subrange(20, 20 + listing_bytes(insts, 0).len() as int) =~= listing_bytes(
        insts,
        0,
    ));
    lemma_listing_found::<E>(cx, start, insts, 0);
    assert(insts.skip(0) =~= insts);
}

/// What a consumer is told of a module that conforms to the grammar, one by one: to
/// initialize, the header with its version and its bound, each instruction as it was
/// written down, and to finalize.
pub proof fn law_module_is_told<E>(
    grammar: Grammar,
    version: Word,
    generator: Word,
    bound: Word,
    reserved: Word,
    insts: Seq<InstructionView>,
    tail: Seq<u8>,
)
    requires
        all_conform(grammar, Map::empty(), insts, 0),
        tail.len() < 4,
    ensures
        ({
            let whole = plan_of_binary::<E>(
                module_bytes(version, generator, bound, reserved, insts) + tail,
                grammar,
            );
            &&& whole.result == Ok::<(), State<E>>(())
            &&& whole.events.len() == insts.len() + 3
            &&& whole.events[0] is Initialize
            &&& whole.events[1] matches Event::Header(header)
            &&& header.bound == bound
            &&& version_of_word(header.version) == version_of_word(version)
            &&& forall|k: int|
                0 <= k < insts.len() ==> #[trigger] whole.events[k + 2] == Event::Instruction(
                    insts[k],
                )
            &&& whole.events[insts.len() as int + 2] is Finalize
        }),
{
    law_module_round_trip::<E>(grammar, version, generator, bound, reserved, insts, tail);
    let (major, minor) = version_of_word(version);
    law_version_round_trip(major, minor);
    let events = plan_of_binary::<E>(
        module_bytes(version, generator, bound, reserved, insts) + tail,
        grammar,
    ).events;
    assert forall|k: int| 0 <= k < insts.len() implies #[trigger] events[k + 2]
        == Event::Instruction(insts[k]) by {}
}

} // verus!
