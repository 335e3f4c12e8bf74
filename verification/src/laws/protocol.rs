//! What a consumer is told, and in which order.

use crate::consumer::{Action, Call, Consumer, Event};
use crate::decoder::{read_word, Cursor};
use crate::grammar::{Grammar, LogicalOperand, OperandQuantifier};
use crate::parser::{
    instruction_events, is_conversation, keeps_to, plan, plan_of_binary, was_led_through, Plan,
};
use crate::state::State;
use crate::syntax::{
    after_instruction, empty_draft, law_word_count_is_used_up, lemma_slot_onward, opcode,
    read_header, read_inst, read_listing, read_slot, read_slots, word_count, Context, Draft,
};
use vstd::prelude::*;

verus! {

/// The parser calls `initialize` before anything else, and only once.
pub proof fn law_initialize_comes_first<E>(
    cx: Context,
    at: Cursor,
    calls: Seq<Call<E>>,
    result: Result<(), State<E>>,
)
    requires
        keeps_to(calls, result, plan::<E>(cx, at)),
    ensures
        calls.len() >= 1,
        forall|i: int|
            0 <= i < calls.len() ==> ((#[trigger] calls[i]).event is Initialize <==> i == 0),
{
    let whole = plan::<E>(cx, at);
    assert forall|i: int| 0 <= i < whole.events.len() implies ((
    #[trigger] whole.events[i]) is Initialize <==> i == 0) by {}
}

/// The header comes right after `initialize`, and only once; it is the one that
/// the binary has.
pub proof fn law_header_comes_second<E>(
    cx: Context,
    at: Cursor,
    calls: Seq<Call<E>>,
    result: Result<(), State<E>>,
)
    requires
        keeps_to(calls, result, plan::<E>(cx, at)),
    ensures
        forall|i: int|
            0 <= i < calls.len() ==> ((#[trigger] calls[i]).event is Header <==> i == 1),
        calls.len() >= 2 ==> (read_header::<E>(cx.bytes, at).result matches Ok(header)
            && calls[1].event == Event::Header(header)),
{
    let whole = plan::<E>(cx, at);
    assert forall|i: int| 0 <= i < whole.events.len() implies ((
    #[trigger] whole.events[i]) is Header <==> i == 1) by {}
}

/// The instructions come after the header, each once, in the order in which the
/// binary has them.
pub proof fn law_instructions_come_in_order<E>(
    cx: Context,
    at: Cursor,
    calls: Seq<Call<E>>,
    result: Result<(), State<E>>,
)
    requires
        keeps_to(calls, result, plan::<E>(cx, at)),
    ensures
        forall|i: int|
            0 <= i < calls.len() && (#[trigger] calls[i]).event is Instruction ==> {
                let listing = read_listing::<E>(cx, read_header::<E>(cx.bytes, at).rest);
                &&& 2 <= i < 2 + listing.instructions.len()
                &&& calls[i].event == Event::Instruction(listing.instructions[i - 2])
            },
        forall|i: int|
            2 <= i < calls.len() && i < 2 + read_listing::<E>(
                cx,
                read_header::<E>(cx.bytes, at).rest,
            ).instructions.len() ==> (#[trigger] calls[i]).event is Instruction,
{
}

/// The parser calls `finalize` last, and only after it has sent the header and
/// every instruction of a binary in which it found nothing wrong.
pub proof fn law_finalize_comes_last<E>(
    cx: Context,
    at: Cursor,
    calls: Seq<Call<E>>,
    result: Result<(), State<E>>,
    i: int,
)
    requires
        keeps_to(calls, result, plan::<E>(cx, at)),
        0 <= i < calls.len(),
        calls[i].event is Finalize,
    ensures
        i == calls.len() - 1,
        ({
            let header = read_header::<E>(cx.bytes, at);
            let listing = read_listing::<E>(cx, header.rest);
            &&& header.result is Ok
            &&& listing.end is Complete
            &&& calls.len() == 3 + listing.instructions.len()
        }),
{
    let header = read_header::<E>(cx.bytes, at);
    if header.result is Ok {
        let listing = read_listing::<E>(cx, header.rest);
        assert forall|j: int| 0 <= j < listing.instructions.len() implies (
        #[trigger] instruction_events(listing.instructions)[j]) is Instruction by {}
    }
}

/// Parsing succeeds if and only if it comes to `finalize` and no call was answered
/// with anything but `Continue`.
pub proof fn law_success_is_finalized<E>(
    cx: Context,
    at: Cursor,
    calls: Seq<Call<E>>,
    result: Result<(), State<E>>,
)
    requires
        keeps_to(calls, result, plan::<E>(cx, at)),
    ensures
        result is Ok <==> {
            &&& calls.len() > 0
            &&& calls.last().event is Finalize
            &&& forall|i: int| 0 <= i < calls.len() ==> (#[trigger] calls[i]).order is Continue
        },
{
    let whole = plan::<E>(cx, at);
    let header = read_header::<E>(cx.bytes, at);
    if result is Ok {
        assert(calls.last().event == whole.events.last());
    }
    if calls.len() > 0 && calls.last().event is Finalize {
        law_finalize_comes_last(cx, at, calls, result, calls.len() - 1);
    }
}

/// Whether parsing can end in this state by itself, without the consumer.
pub open spec fn is_finding<E>(state: State<E>) -> bool {
    !(state is ConsumerStopRequested) && !(state is ConsumerError)
}

/// Parsing operands ends neither as a consumer asks nor as if the module were
/// complete.
pub proof fn lemma_slots_finding<E>(
    cx: Context,
    slots: Seq<LogicalOperand>,
    k: int,
    draft: Draft,
    at: Cursor,
)
    ensures
        read_slots::<E>(cx, slots, k, draft, at).result matches Err(state) ==> is_finding(state)
            && !(state is Complete),
    decreases slots.len() - k, cx.bytes.len() - at.offset,
{
    reveal(read_slot);
    if 0 <= k < slots.len() && at.limit != Some(0nat) {
        let slot = read_slot::<E>(cx, slots[k].kind, draft, at);
        lemma_slot_onward::<E>(cx, slots[k].kind, draft, at);
        if let Ok(longer) = slot.result {
            match slots[k].quantifier {
                OperandQuantifier::ZeroOrMore => {
                    lemma_slots_finding::<E>(cx, slots, k, longer, slot.rest);
                },
                _ => {
                    lemma_slots_finding::<E>(cx, slots, k + 1, longer, slot.rest);
                },
            }
        }
    }
}

proof fn lemma_inst_finding<E>(cx: Context, at: Cursor)
    ensures
        read_inst::<E>(cx, at).result matches Err(state) ==> is_finding(state),
{
    reveal(read_inst);
    let first = read_word(cx.bytes, at);
    if let Ok(word) = first.result {
        if let Some(instruction) = cx.grammar.instruction(opcode(word)) {
            lemma_slots_finding::<E>(
                cx,
                instruction.operands@,
                0,
                empty_draft(),
                Cursor { offset: first.rest.offset, limit: Some((word_count(word) - 1) as nat) },
            );
        }
    }
}

pub proof fn lemma_listing_finding<E>(cx: Context, at: Cursor)
    ensures
        is_finding(read_listing::<E>(cx, at).end),
    decreases cx.bytes.len() - at.offset,
{
    lemma_inst_finding::<E>(cx, at);
    law_word_count_is_used_up::<E>(cx, at);
    let parse = read_inst::<E>(cx, at);
    if let Ok(instruction) = parse.result {
        lemma_listing_finding::<E>(after_instruction(cx, instruction), parse.rest);
    }
}

/// A consumer stops the parsing: after `Stop` or `Error` it is told nothing more,
/// and that answer is the result. Nothing else gives such a result.
pub proof fn law_consumer_stops_the_parsing<E>(
    cx: Context,
    at: Cursor,
    calls: Seq<Call<E>>,
    result: Result<(), State<E>>,
)
    requires
        keeps_to(calls, result, plan::<E>(cx, at)),
    ensures
        forall|i: int|
            0 <= i < calls.len() && !((#[trigger] calls[i]).order is Continue) ==> i == calls.len()
                - 1,
        (result matches Err(State::ConsumerStopRequested)) <==> calls.last().order is Stop,
        result matches Err(State::ConsumerError(error)) ==> calls.last().order == Action::Error(
            error,
        ),
        calls.last().order matches Action::Error(error) ==> result == Err::<(), State<E>>(
            State::ConsumerError(error),
        ),
{
    let header = read_header::<E>(cx.bytes, at);
    if header.result is Ok {
        lemma_listing_finding::<E>(cx, header.rest);
    }
    law_initialize_comes_first(cx, at, calls, result);
}

/// A consumer that promises to answer with nothing but `Continue` is told everything
/// that the binary holds, and the parsing ends as the binary has it.
pub proof fn law_willing_consumer_is_told_everything<C: Consumer>(
    before: C,
    after: C,
    result: Result<(), State<C::Error>>,
    whole: Plan<C::Error>,
)
    requires
        was_led_through(before, after, result, whole),
        forall|earlier: C, event: Event, order: Action<C::Error>, later: C| #[trigger]
            C::answers(earlier, event, order, later) ==> order is Continue,
    ensures
        result == whole.result,
        exists|calls: Seq<Call<C::Error>>, stages: Seq<C>| #[trigger]
            is_conversation(before, after, calls, stages) && calls.map_values(
                |call: Call<C::Error>| call.event,
            ) == whole.events,
{
    let (calls, stages) = choose|calls: Seq<Call<C::Error>>, stages: Seq<C>|
        #![trigger is_conversation(before, after, calls, stages)]
        is_conversation(before, after, calls, stages) && keeps_to(calls, result, whole);
    assert forall|i: int| 0 <= i < calls.len() implies (#[trigger] calls[i]).order is Continue by {
        assert(C::answers(stages[i], calls[i].event, calls[i].order, stages[i + 1]));
    }
    assert(calls.map_values(|call: Call<C::Error>| call.event) =~= whole.events);
}

/// How a consumer is led through a binary: from call to call, each answered by the
/// consumer as the one before left it. The calls are the events of the plan, in
/// order, and all answers but the last are to continue. If the last one is too, then
/// the calls were all of them, and the result is that of the plan; otherwise the
/// result is what the consumer ordered.
pub proof fn law_consumer_is_led_call_by_call<C: Consumer>(
    before: C,
    after: C,
    result: Result<(), State<C::Error>>,
    bytes: Seq<u8>,
    grammar: Grammar,
)
    requires
        was_led_through(before, after, result, plan_of_binary::<C::Error>(bytes, grammar)),
    ensures
        exists|calls: Seq<Call<C::Error>>, stages: Seq<C>|
            #![trigger calls.last(), stages.last()]
            {
                let whole = plan_of_binary::<C::Error>(bytes, grammar);
                &&& stages.len() == calls.len() + 1
                &&& stages[0] == before
                &&& stages.last() == after
                &&& forall|i: int|
                    0 <= i < calls.len() ==> C::answers(
                        stages[i],
                        (#[trigger] calls[i]).event,
                        calls[i].order,
                        stages[i + 1],
                    )
                &&& 1 <= calls.len() <= whole.events.len()
                &&& forall|i: int|
                    0 <= i < calls.len() ==> (#[trigger] calls[i]).event == whole.events[i]
                &&& forall|i: int|
                    0 <= i < calls.len() - 1 ==> (#[trigger] calls[i]).order is Continue
                &&& match calls.last().order {
                    Action::Continue => calls.len() == whole.events.len() && result
                        == whole.result,
                    Action::Stop => result == Err::<(), State<C::Error>>(
                        State::ConsumerStopRequested,
                    ),
                    Action::Error(error) => result == Err::<(), State<C::Error>>(
                        State::ConsumerError(error),
                    ),
                }
            },
{
    let whole = plan_of_binary::<C::Error>(bytes, grammar);
    let (calls, stages) = choose|calls: Seq<Call<C::Error>>, stages: Seq<C>|
        #![trigger is_conversation(before, after, calls, stages)]
        is_conversation(before, after, calls, stages) && keeps_to(calls, result, whole);
    assert(whole.events.len() >= 1);
    assert(calls.len() >= 1);
    assert(stages.last() == after);
    assert(calls.last() == calls[calls.len() - 1]);
}

} // verus!
