//! The SPIR-V binary parser.

use crate::consumer::{order_result, Call, Consumer, Event};
use crate::decoder::Cursor;
use crate::grammar::Grammar;
use crate::mr::InstructionView;
use crate::reader::ModuleReader;
use crate::spirv::{word_bytes, words_bytes, Word};
use crate::state::State;
use crate::syntax::{law_word_count_is_used_up, read_header, read_listing, Context};
use vstd::prelude::*;

verus! {

/// What a consumer that never stops the parsing is told, and how the parsing
/// ends then.
pub struct Plan<E> {
    pub events: Seq<Event>,
    pub result: Result<(), State<E>>,
}

/// Telling a consumer about these instructions.
pub open spec fn instruction_events(instructions: Seq<InstructionView>) -> Seq<Event> {
    instructions.map_values(|inst: InstructionView| Event::Instruction(inst))
}

/// The plan for the module that starts at a cursor.
///
/// The context has the number of the first instruction.
pub open spec fn plan<E>(cx: Context, at: Cursor) -> Plan<E> {
    let header = read_header::<E>(cx.bytes, at);
    match header.result {
        Err(state) => Plan { events: seq![Event::Initialize], result: Err(state) },
        Ok(found) => {
            let listing = read_listing::<E>(cx, header.rest);
            let events = seq![Event::Initialize, Event::Header(found)] + instruction_events(
                listing.instructions,
            );
            match listing.end {
                State::Complete => Plan { events: events.push(Event::Finalize), result: Ok(()) },
                state => Plan { events, result: Err(state) },
            }
        },
    }
}

/// The plan for a whole binary.
pub open spec fn plan_of_binary<E>(bytes: Seq<u8>, grammar: Grammar) -> Plan<E> {
    plan(
        Context { grammar, bytes, types: Map::empty(), index: 1 },
        Cursor { offset: 0, limit: None },
    )
}

/// Whether calls keep to a plan: they are its events in order, and each but the
/// last was answered with `Continue`. Where the last was not, its answer is the
/// result; otherwise the plan was carried out to its end, and the result is that
/// of the plan.
pub open spec fn keeps_to<E>(
    calls: Seq<Call<E>>,
    result: Result<(), State<E>>,
    plan: Plan<E>,
) -> bool {
    &&& calls.len() <= plan.events.len()
    &&& forall|i: int| 0 <= i < calls.len() ==> (#[trigger] calls[i]).event == plan.events[i]
    &&& forall|i: int| 0 <= i < calls.len() - 1 ==> (#[trigger] calls[i]).order is Continue
    &&& if calls.len() > 0 && !(calls.last().order is Continue) {
        result == order_result(calls.last().order)
    } else {
        calls.len() == plan.events.len() && result == plan.result
    }
}

/// Whether a consumer that was `before` was told of the events of these calls, one
/// after another, gave their orders, and is `after`. In between it was as the
/// stages say.
pub open spec fn is_conversation<C: Consumer>(
    before: C,
    after: C,
    calls: Seq<Call<C::Error>>,
    stages: Seq<C>,
) -> bool {
    &&& stages.len() == calls.len() + 1
    &&& stages[0] == before
    &&& stages.last() == after
    &&& forall|i: int|
        0 <= i < calls.len() ==> C::answers(
            stages[i],
            (#[trigger] calls[i]).event,
            calls[i].order,
            stages[i + 1],
        )
}

/// Whether a consumer that was `before` was led through a plan, with this result,
/// and is `after`.
pub open spec fn was_led_through<C: Consumer>(
    before: C,
    after: C,
    result: Result<(), State<C::Error>>,
    plan: Plan<C::Error>,
) -> bool {
    exists|calls: Seq<Call<C::Error>>, stages: Seq<C>|
        #![trigger is_conversation(before, after, calls, stages)]
        is_conversation(before, after, calls, stages) && keeps_to(calls, result, plan)
}

/// The SPIR-V binary parser.
///
/// Takes a binary and a consumer, and invokes the consume methods on the consumer
/// for the module header and each instruction parsed.
///
/// Different from the [`Decoder`](crate::decoder::Decoder), this parser is
/// high-level: it parses instructions according to a SPIR-V grammar.
pub struct Parser<'c, 'd, 'g, C: Consumer> {
    pub reader: ModuleReader<'d, 'g>,
    pub consumer: &'c mut C,
}

impl<'c, 'd, 'g, C: Consumer> Parser<'c, 'd, 'g, C> {
    /// Creates a parser that parses the binary according to the grammar, and sends
    /// the module header and the instructions to the consumer.
    pub fn new(binary: &'d [u8], consumer: &'c mut C, grammar: &'g Grammar) -> (parser: Self)
        ensures
            parser.reader.wf(),
            parser.reader.context() == (Context {
                grammar: *grammar,
                bytes: binary@,
                types: Map::empty(),
                index: 0,
            }),
            parser.reader.cursor() == (Cursor { offset: 0, limit: None }),
            parser.reader.has_read_all_begun(),
            *parser.consumer == *old(consumer),
            *final(parser.consumer) == *final(consumer),
    {
        Parser { reader: ModuleReader::new(binary, grammar), consumer }
    }

    /// Does the parsing.
    #[verifier::rlimit(30)]
    pub fn parse(self) -> (result: Result<(), State<C::Error>>)
        requires
            self.reader.wf(),
            self.reader.has_read_all_begun(),
        ensures
            was_led_through(
                *old(self.consumer),
                *final(self.consumer),
                result,
                plan::<C::Error>(self.reader.next_context(), self.reader.cursor()),
            ),
    {
        let ghost whole = plan::<C::Error>(self.reader.next_context(), self.reader.cursor());
        let ghost before = *self.consumer;
        let mut this = self;
        let ghost mut calls: Seq<Call<C::Error>> = Seq::empty();
        let ghost mut stages: Seq<C> = seq![before];

        let order = this.consumer.initialize();
        proof {
            calls = calls.push(Call { event: Event::Initialize, order });
            stages = stages.push(*this.consumer);
            assert(is_conversation(before, *this.consumer, calls, stages));
        }
        match order.consume() {
            Ok(()) => {},
            Err(state) => return Err(state),
        }

        let header = match this.reader.parse_header() {
            Ok(header) => header,
            Err(state) => return Err(state),
        };
        let ghost listing = read_listing::<C::Error>(
            this.reader.next_context(),
            this.reader.cursor(),
        );
        let order = this.consumer.consume_header(header);
        proof {
            calls = calls.push(Call { event: Event::Header(header), order });
            stages = stages.push(*this.consumer);
            assert(is_conversation(before, *this.consumer, calls, stages));
        }
        match order.consume() {
            Ok(()) => {},
            Err(state) => return Err(state),
        }

        let ghost mut sent: Seq<InstructionView> = Seq::empty();
        assert(listing.instructions =~= sent + listing.instructions);
        loop
            invariant_except_break
                ({
                    let rest = read_listing::<C::Error>(
                        this.reader.next_context(),
                        this.reader.cursor(),
                    );
                    listing.instructions == sent + rest.instructions && listing.end == rest.end
                }),
                this.reader.has_read_all_begun(),
            invariant
                *final(this.consumer) == *final(self.consumer),
                before == *old(self.consumer),
                whole == plan::<C::Error>(self.reader.next_context(), self.reader.cursor()),
                whole.events.len() >= 2,
                whole.events[0] == Event::Initialize,
                whole.events[1] == Event::Header(header),
                listing.end is Complete ==> whole.events == (seq![
                    Event::Initialize,
                    Event::Header(header),
                ] + instruction_events(listing.instructions)).push(Event::Finalize)
                    && whole.result == Ok::<(), State<C::Error>>(()),
                !(listing.end is Complete) ==> whole.events == seq![
                    Event::Initialize,
                    Event::Header(header),
                ] + instruction_events(listing.instructions) && whole.result == Err::<
                    (),
                    State<C::Error>,
                >(listing.end),
                this.reader.wf(),
                is_conversation(before, *this.consumer, calls, stages),
                calls.len() == 2 + sent.len(),
                forall|i: int| 0 <= i < calls.len() ==> (#[trigger] calls[i]).order is Continue,
                forall|i: int|
                    0 <= i < calls.len() ==> (#[trigger] calls[i]).event == whole.events[i],
            ensures
                listing.end is Complete,
                listing.instructions == sent,
            decreases this.reader.binary().len() - this.reader.cursor().offset,
        {
            let ghost cx = this.reader.next_context();
            let ghost at = this.reader.cursor();
            proof {
                law_word_count_is_used_up::<C::Error>(cx, at);
                this.reader.lemma_can_begin();
            }
            match this.reader.parse_inst() {
                Ok(inst) => {
                    this.reader.track(&inst);
                    let ghost rest = read_listing::<C::Error>(
                        this.reader.next_context(),
                        this.reader.cursor(),
                    );
                    proof {
                        assert(listing.instructions =~= sent.push(inst@) + rest.instructions);
                        sent = sent.push(inst@);
                    }
                    let order = this.consumer.consume_instruction(inst);
                    proof {
                        calls = calls.push(Call { event: Event::Instruction(inst@), order });
                        stages = stages.push(*this.consumer);
                        assert(is_conversation(before, *this.consumer, calls, stages));
                    }
                    match order.consume() {
                        Ok(()) => {},
                        Err(state) => return Err(state),
                    }
                },
                Err(State::Complete) => {
                    assert(sent + Seq::<InstructionView>::empty() =~= sent);
                    break;
                },
                Err(state) => {
                    proof {
                        assert(sent + Seq::<InstructionView>::empty() =~= sent);
                    }
                    return Err(state);
                },
            }
        }
        let order = this.consumer.finalize();
        proof {
            calls = calls.push(Call { event: Event::Finalize, order });
            stages = stages.push(*this.consumer);
            assert(is_conversation(before, *this.consumer, calls, stages));
        }
        order.consume()
    }
}

/// Parses the binary according to the grammar, and sends the module to the
/// consumer.
pub fn parse_bytes<C: Consumer>(binary: &[u8], consumer: &mut C, grammar: &Grammar) -> (result:
    Result<(), State<C::Error>>)
    ensures
        was_led_through(
            *old(consumer),
            *final(consumer),
            result,
            plan_of_binary::<C::Error>(binary@, *grammar),
        ),
{
    Parser::new(binary, consumer, grammar).parse()
}

/// Parses the binary, given as words, according to the grammar, and sends the
/// module to the consumer.
pub fn parse_words<C: Consumer>(binary: &[Word], consumer: &mut C, grammar: &Grammar) -> (result:
    Result<(), State<C::Error>>)
    ensures
        was_led_through(
            *old(consumer),
            *final(consumer),
            result,
            plan_of_binary::<C::Error>(words_bytes(binary@), *grammar),
        ),
{
    let mut bytes: Vec<u8> = Vec::new();
    let mut k: usize = 0;
    while k < binary.len()
        invariant
            k <= binary@.len(),
            bytes@ == words_bytes(binary@.take(k as int)),
        decreases binary@.len() - k,
    {
        let word: Word = binary[k];
        bytes.push((word % 0x100) as u8);
        bytes.push((word / 0x100 % 0x100) as u8);
        bytes.push((word / 0x1_0000 % 0x100) as u8);
        bytes.push((word / 0x100_0000) as u8);
        assert(binary@.take(k + 1).drop_last() =~= binary@.take(k as int));
        assert(bytes@ =~= words_bytes(binary@.take(k as int)) + word_bytes(word));
        k = k + 1;
    }
    assert(binary@.take(k as int) =~= binary@);
    parse_bytes(bytes.as_slice(), consumer, grammar)
}

} // verus!
