//! The first thing that is wrong with an instruction is what is reported.

use crate::decoder::{
    is_enumerant, read_int64, read_string, read_word, skip_string, trim_nul, Cursor, DecodeError,
};
use crate::grammar::{BasicKind, InstructionGrammar, LogicalOperand, OperandKind};
use crate::laws::binary::{code_at, count_at, has_no_operation, is_of_operations};
use crate::laws::completeness::holds;
use crate::laws::conformance::{
    addition, are_of_kinds, is_divided, is_of_kind, lemma_basic_conforms, lemma_place_grows,
    lemma_share_added, lemma_slot_conforms, number_of_ids, place,
};
use crate::laws::encoding::{
    body_bytes, draft_bytes, is_ready, lemma_basic_kept, lemma_operands_push, lemma_slot_kept,
    lemma_spans_join, operands_bytes, results_come_first, span,
};
use crate::laws::decoding::available;
use crate::laws::errors::{lacks_opcode, string_spans};
use crate::laws::locations::{error_offset, is_supported, law_operand_errors_are_reported};
use crate::laws::lookup::law_every_opcode_is_found;
use crate::laws::operands::{ids_of, lemma_ids_counted};
use crate::mr::{InstructionView, OperandView};
use crate::spirv::{word_at, Word};
use crate::state::State;
use crate::syntax::{
    components, empty_draft, enumerant_parameters, lemma_basic_onward, lemma_slot_onward, opcode,
    read_basic, read_each, read_ids, read_inst, read_slot, read_slots, read_spec_constant_op,
    word_count, Context, Draft,
};
use crate::tracker::Type;
use vstd::prelude::*;
use vstd::utf8::valid_utf8;

verus! {

/// The error of a word that cannot be read at an offset, in an instruction that goes
/// up to another: it is not there, or it is not in the instruction.
pub open spec fn missing_word(offset: nat, end: nat) -> DecodeError {
    if offset == end {
        DecodeError::LimitReached(offset as usize)
    } else {
        DecodeError::StreamExpected(offset as usize)
    }
}

/// Whether this is what is wrong with two words that should stand at an offset.
pub open spec fn is_problem_of_two_words(
    bytes: Seq<u8>,
    offset: nat,
    end: nat,
    error: DecodeError,
) -> bool {
    if bytes.len() < offset + 4 {
        error == missing_word(offset, end)
    } else {
        &&& bytes.len() < offset + 8 || offset + 4 == end
        &&& error == missing_word(offset + 4, end)
    }
}

/// Whether this is what is wrong with the string that should stand at an offset: none
/// of its words ends with a nul byte up to the one that is missing, or its bytes are
/// not UTF-8.
pub open spec fn is_problem_of_string(
    bytes: Seq<u8>,
    offset: nat,
    end: nat,
    error: DecodeError,
) -> bool {
    match error {
        DecodeError::DecodeStringFailed(x) => {
            &&& x == offset
            &&& exists|y: int| #[trigger]
                string_spans(bytes, offset as int, y) && y <= end && !valid_utf8(
                    trim_nul(bytes.subrange(offset as int, y)),
                )
        },
        DecodeError::EnumerantUnknown(_, _, _) => false,
        _ => {
            let x = error_offset(error) as nat;
            &&& offset <= x && (x - offset) % 4 == 0
            &&& error == missing_word(x, end)
            &&& x == end || bytes.len() < x + 4
            &&& forall|i: int|
                offset <= i < x && (i - offset) % 4 == 3 ==> #[trigger] bytes[i] != 0
        },
    }
}

/// Whether this is what is wrong with a parameter of this kind that should stand at an
/// offset.
pub open spec fn is_problem_of_parameter(
    cx: Context,
    kind: BasicKind,
    offset: nat,
    end: nat,
    error: DecodeError,
) -> bool {
    let gone = cx.bytes.len() < offset + 4 || offset == end;
    match kind {
        BasicKind::LiteralString => is_problem_of_string(cx.bytes, offset, end, error),
        BasicKind::Enumerant(kind) => if gone {
            error == DecodeError::StreamExpected(offset as usize)
        } else {
            let value = word_at(cx.bytes, offset as int);
            &&& !is_enumerant(cx.grammar, kind, value)
            &&& error == DecodeError::EnumerantUnknown(offset as usize, kind, value)
        },
        _ => gone && error == missing_word(offset, end),
    }
}

/// Whether some parameters, which start at an offset, are right as far as they go, and
/// this is what is wrong with the next one.
pub open spec fn is_problem_of_parameters(
    cx: Context,
    kinds: Seq<BasicKind>,
    offset: nat,
    end: nat,
    done: Seq<OperandView>,
    error: DecodeError,
) -> bool {
    &&& done.len() < kinds.len()
    &&& are_of_kinds(cx.grammar, kinds.take(done.len() as int), done)
    &&& holds(cx.bytes, offset, operands_bytes(done))
    &&& is_problem_of_parameter(
        cx,
        kinds[done.len() as int],
        offset + operands_bytes(done).len(),
        end,
        error,
    )
}

/// Whether this is what is wrong with an operand of this kind that should stand at an
/// offset, before the end of the instruction.
pub open spec fn is_problem_of_operand<E>(
    cx: Context,
    kind: OperandKind,
    result_type: Option<Word>,
    offset: nat,
    end: nat,
    state: State<E>,
) -> bool {
    let gone = cx.bytes.len() < offset + 4;
    match kind {
        OperandKind::LiteralContextDependentNumber => {
            let type_id = result_type->0;
            let known = cx.types.contains_key(type_id);
            if known && !is_supported(cx.types[type_id]) {
                state == State::<E>::TypeUnsupported(offset as usize, cx.index as usize)
            } else {
                &&& state matches State::OperandError(error)
                &&& if known && (cx.types[type_id] matches Type::Integer(64, _)
                    || cx.types[type_id] == Type::Float(64)) {
                    is_problem_of_two_words(cx.bytes, offset, end, error)
                } else {
                    gone && error == missing_word(offset, end)
                }
            }
        },
        OperandKind::LiteralSpecConstantOpInteger => false,
        OperandKind::PairLiteralIntegerIdRef
        | OperandKind::PairIdRefLiteralInteger
        | OperandKind::PairIdRefIdRef => {
            &&& state matches State::OperandError(error)
            &&& is_problem_of_two_words(cx.bytes, offset, end, error)
        },
        OperandKind::Basic(BasicKind::LiteralString) => {
            &&& state matches State::OperandError(error)
            &&& is_problem_of_string(cx.bytes, offset, end, error)
        },
        OperandKind::Basic(BasicKind::Enumerant(kind)) => {
            let value = word_at(cx.bytes, offset as int);
            &&& state matches State::OperandError(error)
            &&& if gone {
                error == DecodeError::StreamExpected(offset as usize)
            } else if !is_enumerant(cx.grammar, kind, value) {
                error == DecodeError::EnumerantUnknown(offset as usize, kind, value)
            } else {
                exists|done: Seq<OperandView>| #[trigger]
                    is_problem_of_parameters(
                        cx,
                        enumerant_parameters(cx.grammar, kind, value),
                        offset + 4,
                        end,
                        done,
                        error,
                    )
            }
        },
        _ => {
            &&& state matches State::OperandError(error)
            &&& gone && error == missing_word(offset, end)
        },
    }
}

/// Whether an instruction, which starts at an offset, is right up to some operands,
/// and what comes next is wrong: nothing is left of a logical operand that has to
/// occur, words are left over, or the next operand cannot be read.
pub open spec fn is_first_problem<E>(
    cx: Context,
    start: nat,
    slots: Seq<LogicalOperand>,
    draft: Draft,
    shares: Seq<Seq<OperandView>>,
    state: State<E>,
) -> bool {
    let body = body_bytes(draft.result_type, draft.result_id, draft.operands);
    let next = place(slots, shares.len() as int);
    let here = start + 4 + body.len();
    let end = start + 4 * count_at(cx.bytes, start);
    &&& is_divided(
        cx.grammar,
        cx.types,
        slots,
        draft.result_type,
        draft.result_id,
        draft.operands,
        shares,
    )
    &&& holds(cx.bytes, start + 4, body)
    &&& here <= end
    &&& if next >= slots.len() {
        here < end && state == State::<E>::OperandExceeded(here as usize, cx.index as usize)
    } else if here == end {
        slots[next].quantifier is One && state == State::<E>::OperandExpected(
            here as usize,
            cx.index as usize,
        )
    } else {
        is_problem_of_operand(cx, slots[next].kind, draft.result_type, here, end, state)
    }
}

/// A cursor in an instruction that goes up to an offset.
spec fn before(bytes: Seq<u8>, at: Cursor, end: nat) -> bool {
    &&& at.offset <= bytes.len() <= usize::MAX
    &&& at.limit matches Some(left)
    &&& at.offset + 4 * left == end
}

proof fn lemma_word_problem(bytes: Seq<u8>, at: Cursor, end: nat)
    requires
        before(bytes, at, end),
    ensures
        ({
            let word = read_word(bytes, at);
            match word.result {
                Ok(_) => before(bytes, word.rest, end) && word.rest.offset == at.offset + 4
                    && at.offset + 4 <= bytes.len() && at.offset < end,
                Err(error) => (bytes.len() < at.offset + 4 || at.offset == end) && error
                    == missing_word(at.offset, end),
            }
        }),
{
}

proof fn lemma_two_words_problem(bytes: Seq<u8>, at: Cursor, end: nat)
    requires
        before(bytes, at, end),
        at.limit != Some(0nat),
    ensures
        read_int64(bytes, at).result matches Err(error) ==> is_problem_of_two_words(
            bytes,
            at.offset,
            end,
            error,
        ),
{
    lemma_word_problem(bytes, at, end);
    let low = read_word(bytes, at);
    if low.result is Ok {
        lemma_word_problem(bytes, low.rest, end);
    }
}

proof fn lemma_skip_problem(bytes: Seq<u8>, at: Cursor, end: nat)
    requires
        before(bytes, at, end),
    ensures
        ({
            let words = skip_string(bytes, at);
            match words.result {
                Ok(_) => string_spans(bytes, at.offset as int, words.rest.offset as int)
                    && words.rest.offset <= end,
                Err(error) => is_problem_of_string(bytes, at.offset, end, error)
                    && !(error is DecodeStringFailed),
            }
        }),
    decreases bytes.len() - at.offset,
{
    lemma_word_problem(bytes, at, end);
    let word = read_word(bytes, at);
    if word.result is Ok && bytes[at.offset as int + 3] != 0 {
        lemma_skip_problem(bytes, word.rest, end);
        let words = skip_string(bytes, at);
        match words.result {
            Ok(_) => {
                assert forall|i: int|
                    at.offset <= i < words.rest.offset - 4 && (i - at.offset) % 4
                        == 3 implies #[trigger] bytes[i] != 0 by {
                    if i >= at.offset + 4 {
                        assert((i - word.rest.offset) % 4 == 3);
                    }
                }
            },
            Err(error) => {
                let x = error_offset(error) as nat;
                assert forall|i: int|
                    at.offset <= i < x && (i - at.offset) % 4 == 3 implies #[trigger] bytes[i]
                        != 0 by {
                    if i >= at.offset + 4 {
                        assert((i - word.rest.offset) % 4 == 3);
                    }
                }
            },
        }
    }
}

proof fn lemma_string_problem(bytes: Seq<u8>, at: Cursor, end: nat)
    requires
        before(bytes, at, end),
    ensures
        read_string(bytes, at).result matches Err(error) ==> is_problem_of_string(
            bytes,
            at.offset,
            end,
            error,
        ),
{
    lemma_skip_problem(bytes, at, end);
    let words = skip_string(bytes, at);
    if words.result is Ok {
        assert(string_spans(bytes, at.offset as int, words.rest.offset as int));
    }
}

proof fn lemma_basic_problem(cx: Context, kind: BasicKind, at: Cursor, end: nat)
    requires
        before(cx.bytes, at, end),
    ensures
        ({
            let reading = read_basic(cx.grammar, cx.bytes, kind, at);
            match reading.result {
                Ok(_) => before(cx.bytes, reading.rest, end) && at.offset <= reading.rest.offset,
                Err(error) => is_problem_of_parameter(cx, kind, at.offset, end, error),
            }
        }),
{
    lemma_word_problem(cx.bytes, at, end);
    lemma_string_problem(cx.bytes, at, end);
    lemma_basic_onward(cx.grammar, cx.bytes, kind, at);
}

#[verifier::rlimit(50)]
proof fn lemma_each_problem(
    cx: Context,
    kinds: Seq<BasicKind>,
    from: Cursor,
    end: nat,
    operands: Seq<OperandView>,
    done: Seq<OperandView>,
    at: Cursor,
) -> (all: Seq<OperandView>)
    requires
        done.len() <= kinds.len(),
        are_of_kinds(cx.grammar, kinds.take(done.len() as int), done),
        from.offset <= at.offset,
        before(cx.bytes, at, end),
        operands_bytes(done) == span(cx.bytes, from, at),
    ensures
        read_each(
            cx.grammar,
            cx.bytes,
            kinds,
            done.len() as int,
            operands,
            at,
        ).result matches Err(error) ==> is_problem_of_parameters(
            cx,
            kinds,
            from.offset,
            end,
            all,
            error,
        ),
    decreases kinds.len() - done.len(),
{
    let k = done.len() as int;
    if k < kinds.len() {
        let next = read_basic(cx.grammar, cx.bytes, kinds[k], at);
        lemma_basic_problem(cx, kinds[k], at, end);
        if let Ok(operand) = next.result {
            let more = done.push(operand);
            lemma_basic_conforms(cx.grammar, cx.bytes, kinds[k], at);
            lemma_basic_kept(cx.grammar, cx.bytes, kinds[k], at);
            lemma_operands_push(done, operand);
            lemma_spans_join(cx.bytes, from, at, next.rest);
            assert(are_of_kinds(cx.grammar, kinds.take(k + 1), more)) by {
                assert forall|i: int| 0 <= i < k + 1 implies is_of_kind(
                    cx.grammar,
                    kinds.take(k + 1)[i],
                    #[trigger] more[i],
                ) by {
                    if i < k {
                        assert(is_of_kind(cx.grammar, kinds.take(k)[i], done[i]));
                    }
                }
            }
            lemma_each_problem(cx, kinds, from, end, operands.push(operand), more, next.rest)
        } else {
            done
        }
    } else {
        done
    }
}

#[verifier::rlimit(50)]
proof fn lemma_pair_problem(
    cx: Context,
    kinds: Seq<BasicKind>,
    at: Cursor,
    end: nat,
)
    requires
        before(cx.bytes, at, end),
        at.limit != Some(0nat),
        kinds.len() == 2,
        kinds[0] is IdRef || kinds[0] is LiteralInteger,
        kinds[1] is IdRef || kinds[1] is LiteralInteger,
    ensures
        read_each(cx.grammar, cx.bytes, kinds, 0, Seq::empty(), at).result matches Err(error)
            ==> is_problem_of_two_words(cx.bytes, at.offset, end, error),
{
    reveal_with_fuel(read_each, 3);
    lemma_word_problem(cx.bytes, at, end);
    let first = read_word(cx.bytes, at);
    if first.result is Ok {
        lemma_word_problem(cx.bytes, first.rest, end);
    }
}

proof fn lemma_one_problem(cx: Context, kind: BasicKind, at: Cursor)
    ensures
        read_each(cx.grammar, cx.bytes, seq![kind], 0, Seq::empty(), at).result matches Err(error)
            ==> read_basic(cx.grammar, cx.bytes, kind, at).result == Err::<
            OperandView,
            DecodeError,
        >(error),
{
    reveal_with_fuel(read_each, 3);
}

#[verifier::rlimit(50)]
proof fn lemma_slot_problem<E>(cx: Context, kind: OperandKind, draft: Draft, at: Cursor, end: nat)
    requires
        before(cx.bytes, at, end),
        at.limit != Some(0nat),
        !(kind is LiteralSpecConstantOpInteger),
    ensures
        read_slot::<E>(cx, kind, draft, at).result matches Err(state) ==> is_problem_of_operand(
            cx,
            kind,
            draft.result_type,
            at.offset,
            end,
            state,
        ),
{
    reveal(read_slot);
    lemma_word_problem(cx.bytes, at, end);
    match kind {
        OperandKind::IdResultType | OperandKind::IdResult => {},
        OperandKind::LiteralContextDependentNumber => {
            lemma_two_words_problem(cx.bytes, at, end);
        },
        OperandKind::Basic(BasicKind::Enumerant(kind)) => {
            let value = word_at(cx.bytes, at.offset as int);
            if cx.bytes.len() >= at.offset + 4 {
                let next = read_word(cx.bytes, at).rest;
                let none = Seq::<OperandView>::empty();
                let kinds = enumerant_parameters(cx.grammar, kind, value);
                let first = seq![OperandView::Enumerant(kind, value)];
                assert(operands_bytes(none) =~= span(cx.bytes, next, next));
                let all = lemma_each_problem(cx, kinds, next, end, first, none, next);
                let each = read_each(cx.grammar, cx.bytes, kinds, 0, first, next);
                if let Err(error) = each.result {
                    assert(is_problem_of_parameters(cx, kinds, next.offset, end, all, error));
                }
            }
        },
        OperandKind::Basic(kind) => {
            lemma_string_problem(cx.bytes, at, end);
            lemma_one_problem(cx, kind, at);
        },
        _ => {
            lemma_pair_problem(cx, components(kind), at, end);
        },
    }
}

/// How far an instruction is right: what has been read of it, and where that ends.
struct Stop {
    draft: Draft,
    at: Cursor,
    shares: Seq<Seq<OperandView>>,
}

spec fn is_right_up_to(
    cx: Context,
    slots: Seq<LogicalOperand>,
    from: Cursor,
    end: nat,
    stop: Stop,
) -> bool {
    &&& is_divided(
        cx.grammar,
        cx.types,
        slots,
        stop.draft.result_type,
        stop.draft.result_id,
        stop.draft.operands,
        stop.shares,
    )
    &&& from.offset <= stop.at.offset
    &&& before(cx.bytes, stop.at, end)
    &&& draft_bytes(stop.draft) == span(cx.bytes, from, stop.at)
}

#[verifier::rlimit(50)]
proof fn lemma_slots_problem<E>(
    cx: Context,
    slots: Seq<LogicalOperand>,
    k: int,
    from: Cursor,
    end: nat,
    here: Stop,
) -> (stop: Stop)
    requires
        results_come_first(slots),
        has_no_operation(slots),
        k == place(slots, here.shares.len() as int),
        k < slots.len() ==> is_ready(here.draft, slots[k].kind),
        is_right_up_to(cx, slots, from, end, here),
    ensures
        is_right_up_to(cx, slots, from, end, stop),
        ({
            let parse = read_slots::<E>(cx, slots, k, here.draft, here.at);
            let next = place(slots, stop.shares.len() as int);
            match parse.result {
                Ok(longer) => {
                    &&& longer == stop.draft
                    &&& parse.rest == stop.at
                    &&& next >= slots.len() || stop.at.limit == Some(0nat)
                },
                Err(state) => {
                    &&& 0 <= next < slots.len()
                    &&& if stop.at.limit == Some(0nat) {
                        slots[next].quantifier is One && state == State::<E>::OperandExpected(
                            stop.at.offset as usize,
                            cx.index as usize,
                        )
                    } else {
                        read_slot::<E>(cx, slots[next].kind, stop.draft, stop.at).result == Err::<
                            Draft,
                            State<E>,
                        >(state)
                    }
                },
            }
        }),
    decreases slots.len() - k, cx.bytes.len() - here.at.offset,
{
    lemma_place_grows(slots, 0, here.shares.len() as int);
    if k < slots.len() && here.at.limit != Some(0nat) {
        let slot = read_slot::<E>(cx, slots[k].kind, here.draft, here.at);
        lemma_slot_onward::<E>(cx, slots[k].kind, here.draft, here.at);
        if let Ok(longer) = slot.result {
            lemma_slot_conforms::<E>(cx, slots[k].kind, here.draft, here.at);
            lemma_share_added(cx, slots, here.draft, longer, here.shares);
            lemma_slot_kept::<E>(cx, slots[k].kind, here.draft, here.at);
            lemma_spans_join(cx.bytes, from, here.at, slot.rest);
            let more = here.shares.push(addition(here.draft, longer));
            let next = place(slots, more.len() as int);
            let there = Stop { draft: longer, at: slot.rest, shares: more };
            if next < slots.len() {
                assert(is_ready(longer, slots[next].kind)) by {
                    reveal(read_slot);
                }
            }
            lemma_slots_problem::<E>(cx, slots, next, from, end, there)
        } else {
            here
        }
    } else {
        here
    }
}

/// The first thing that is wrong with an instruction is what is reported. This is
/// stated of those without an operation, whose results come first.
#[verifier::rlimit(50)]
pub proof fn law_the_first_problem_is_reported<E>(
    cx: Context,
    at: Cursor,
    instruction: InstructionGrammar,
)
    requires
        at.limit is None,
        cx.bytes.len() <= usize::MAX,
        at.offset + 4 <= cx.bytes.len(),
        count_at(cx.bytes, at.offset) > 0,
        cx.grammar.instruction(code_at(cx.bytes, at.offset) as u16) == Some(instruction),
        results_come_first(instruction.operands@),
        has_no_operation(instruction.operands@),
    ensures
        read_inst::<E>(cx, at).result matches Err(state) ==> exists|
            draft: Draft,
            shares: Seq<Seq<OperandView>>,
        | #[trigger]
            is_first_problem(cx, at.offset, instruction.operands@, draft, shares, state),
{
    reveal(read_inst);
    if let Err(state) = read_inst::<E>(cx, at).result {
        let slots = instruction.operands@;
        let word = word_at(cx.bytes, at.offset as int);
        assert(word_count(word) == count_at(cx.bytes, at.offset));
        assert(opcode(word) == code_at(cx.bytes, at.offset));
        let end = at.offset + 4 * count_at(cx.bytes, at.offset);
        let from = Cursor {
            offset: at.offset + 4,
            limit: Some((word_count(word) - 1) as nat),
        };
        let here = Stop { draft: empty_draft(), at: from, shares: Seq::empty() };
        assert(draft_bytes(here.draft) =~= span(cx.bytes, from, from));
        let stop = lemma_slots_problem::<E>(cx, slots, 0, from, end, here);
        let next = place(slots, stop.shares.len() as int);
        let body = draft_bytes(stop.draft);
        assert(stop.at.offset == at.offset + 4 + body.len());
        if next < slots.len() && stop.at.limit != Some(0nat) {
            lemma_slot_problem::<E>(cx, slots[next].kind, stop.draft, stop.at, end);
        }
        assert(is_first_problem(cx, at.offset, slots, stop.draft, stop.shares, state));
    }
}

/// How many words of the instruction at an offset there are: as many as it says, or as
/// the binary has.
pub open spec fn words_there(bytes: Seq<u8>, start: nat) -> nat {
    let left = ((bytes.len() - start) / 4) as nat;
    if left < count_at(bytes, start) {
        left
    } else {
        count_at(bytes, start)
    }
}

proof fn lemma_ids_problem(
    bytes: Seq<u8>,
    slots: Seq<LogicalOperand>,
    k: int,
    operands: Seq<OperandView>,
    at: Cursor,
    end: nat,
)
    requires
        before(bytes, at, end),
    ensures
        ({
            let ids = read_ids(bytes, slots, k, operands, at);
            let n = number_of_ids(slots, k);
            let there = available(bytes, at);
            if n <= there {
                &&& ids.result is Ok
                &&& ids.rest.offset == at.offset + 4 * n
                &&& before(bytes, ids.rest, end)
            } else {
                ids.result == Err::<Seq<OperandView>, DecodeError>(
                    missing_word(at.offset + 4 * there, end),
                )
            }
        }),
    decreases slots.len() - k,
{
    if 0 <= k < slots.len() {
        if slots[k].kind == OperandKind::Basic(BasicKind::IdRef) {
            let id = read_word(bytes, at);
            lemma_word_problem(bytes, at, end);
            if let Ok(id_word) = id.result {
                assert(available(bytes, id.rest) == available(bytes, at) - 1);
                lemma_ids_problem(
                    bytes,
                    slots,
                    k + 1,
                    operands.push(OperandView::IdRef(id_word)),
                    id.rest,
                    end,
                );
            }
        } else {
            lemma_ids_problem(bytes, slots, k + 1, operands, at, end);
        }
    }
}

#[verifier::rlimit(50)]
proof fn lemma_two_ids_missing<E>(
    cx: Context,
    slots: Seq<LogicalOperand>,
    start: nat,
    from: Cursor,
)
    requires
        cx.bytes.len() <= usize::MAX,
        start + 4 <= cx.bytes.len(),
        count_at(cx.bytes, start) > 0,
        from == (Cursor {
            offset: start + 4,
            limit: Some((count_at(cx.bytes, start) - 1) as nat),
        }),
        slots.len() == 3,
        slots[0].kind is IdResultType && slots[0].quantifier is One,
        slots[1].kind is IdResult && slots[1].quantifier is One,
        slots[2].kind is LiteralSpecConstantOpInteger && slots[2].quantifier is One,
        words_there(cx.bytes, start) < 4,
    ensures
        ({
            let parse = read_slots::<E>(cx, slots, 0, empty_draft(), from);
            let there = words_there(cx.bytes, start);
            let missing = start + 4 * there;
            parse.result == Err::<Draft, State<E>>(
                if there == count_at(cx.bytes, start) {
                    State::OperandExpected(missing as usize, cx.index as usize)
                } else {
                    State::OperandError(DecodeError::StreamExpected(missing as usize))
                },
            )
        }),
{
    reveal(read_slot);
    reveal_with_fuel(read_slots, 4);
}

#[verifier::rlimit(50)]
proof fn lemma_two_ids_read<E>(cx: Context, slots: Seq<LogicalOperand>, start: nat, from: Cursor)
    requires
        start + 4 <= cx.bytes.len(),
        from == (Cursor {
            offset: start + 4,
            limit: Some((count_at(cx.bytes, start) - 1) as nat),
        }),
        slots.len() == 3,
        slots[0].kind is IdResultType && slots[0].quantifier is One,
        slots[1].kind is IdResult && slots[1].quantifier is One,
        words_there(cx.bytes, start) >= 4,
    ensures
        read_slots::<E>(cx, slots, 0, empty_draft(), from) == read_slots::<E>(
            cx,
            slots,
            2,
            Draft {
                result_type: Some(word_at(cx.bytes, start as int + 4)),
                result_id: Some(word_at(cx.bytes, start as int + 8)),
                operands: Seq::empty(),
            },
            Cursor { offset: start + 12, limit: Some((count_at(cx.bytes, start) - 3) as nat) },
        ),
{
    reveal(read_slot);
    reveal_with_fuel(read_slots, 3);
}

#[verifier::rlimit(50)]
proof fn lemma_operation_problem<E>(
    cx: Context,
    slots: Seq<LogicalOperand>,
    start: nat,
    draft: Draft,
    at: Cursor,
)
    requires
        start + 4 <= cx.bytes.len() <= usize::MAX,
        at == (Cursor {
            offset: start + 12,
            limit: Some((count_at(cx.bytes, start) - 3) as nat),
        }),
        slots.len() == 3,
        slots[2].kind is LiteralSpecConstantOpInteger && slots[2].quantifier is One,
        words_there(cx.bytes, start) >= 4,
    ensures
        ({
            let parse = read_slots::<E>(cx, slots, 2, draft, at);
            let there = words_there(cx.bytes, start);
            let end = start + 4 * count_at(cx.bytes, start);
            let code = code_at(cx.bytes, start + 12);
            if lacks_opcode(cx.grammar, code) {
                parse.result == Err::<Draft, State<E>>(
                    State::SpecConstantOpIntegerIncorrect(
                        (start + 16) as usize,
                        cx.index as usize,
                    ),
                )
            } else {
                &&& cx.grammar.instruction(code as u16) matches Some(operation)
                &&& {
                    let needed = 4 + ids_of(operation.operands@).len();
                    if there < needed {
                        parse.result == Err::<Draft, State<E>>(
                            State::OperandError(missing_word(start + 4 * there, end)),
                        )
                    } else {
                        &&& parse.result is Ok
                        &&& parse.rest.offset == start + 4 * needed
                        &&& before(cx.bytes, parse.rest, end)
                    }
                }
            }
        }),
{
    let there = words_there(cx.bytes, start);
    let end = start + 4 * count_at(cx.bytes, start);
    let number = word_at(cx.bytes, start as int + 12);
    let code = (number % 0x1_0000) as u16;
    assert(code == code_at(cx.bytes, start + 12));
    law_every_opcode_is_found(cx.grammar, code);
    let slot = read_slot::<E>(cx, slots[2].kind, draft, at);
    let operation = read_spec_constant_op::<E>(cx, at);
    assert(slot.rest == operation.rest && (slot.result is Ok <==> operation.result is Ok) && (
    operation.result matches Err(state) ==> slot.result == Err::<Draft, State<E>>(state))) by {
        reveal(read_slot);
    }
    lemma_word_problem(cx.bytes, at, end);
    let next = read_word(cx.bytes, at).rest;
    if let Some(operation) = cx.grammar.instruction(code) {
        assert(!lacks_opcode(cx.grammar, code as nat));
        let head = seq![OperandView::LiteralSpecConstantOpInteger(operation.class.opcode)];
        lemma_ids_problem(cx.bytes, operation.operands@, 0, head, next, end);
        lemma_ids_counted(operation.operands@, 0);
        assert(operation.operands@.take(0) =~= Seq::empty());
        assert(ids_of(operation.operands@.take(0)).len() == 0) by {
            reveal(Seq::filter);
        }
        assert(available(cx.bytes, next) == there - 4);
        assert(next.offset + 4 * (there - 4) == start + 4 * there);
    } else {
        assert(lacks_opcode(cx.grammar, code as nat));
    }
    if let Ok(longer) = slot.result {
        assert(read_slots::<E>(cx, slots, 3, longer, slot.rest).result is Ok);
        assert(read_slots::<E>(cx, slots, 2, draft, at) == read_slots::<E>(
            cx,
            slots,
            3,
            longer,
            slot.rest,
        ));
    }
}

/// What becomes of an instruction with an operation. Its two ids and the operation have
/// to be there. The operation has to be one of the grammar. There has to be an id for
/// each that it takes, and nothing else.
#[verifier::rlimit(50)]
pub proof fn law_operations_are_complete<E>(
    cx: Context,
    at: Cursor,
    instruction: InstructionGrammar,
)
    requires
        at.limit is None,
        cx.bytes.len() <= usize::MAX,
        at.offset + 4 <= cx.bytes.len(),
        cx.index <= usize::MAX,
        count_at(cx.bytes, at.offset) > 0,
        cx.grammar.instruction(code_at(cx.bytes, at.offset) as u16) == Some(instruction),
        is_of_operations(instruction),
    ensures
        ({
            let result = read_inst::<E>(cx, at).result;
            let start = at.offset;
            let count = count_at(cx.bytes, start);
            let there = words_there(cx.bytes, start);
            let missing = start + 4 * there;
            let number = cx.index as usize;
            let code = code_at(cx.bytes, start + 12);
            if there < 4 {
                result == Err::<InstructionView, State<E>>(
                    if there == count {
                        State::OperandExpected(missing as usize, number)
                    } else {
                        State::OperandError(DecodeError::StreamExpected(missing as usize))
                    },
                )
            } else if lacks_opcode(cx.grammar, code) {
                result == Err::<InstructionView, State<E>>(
                    State::SpecConstantOpIntegerIncorrect((start + 16) as usize, number),
                )
            } else {
                &&& cx.grammar.instruction(code as u16) matches Some(operation)
                &&& {
                    let needed = 4 + ids_of(operation.operands@).len();
                    if there < needed {
                        result == Err::<InstructionView, State<E>>(
                            State::OperandError(missing_word(missing, start + 4 * count)),
                        )
                    } else if count > needed {
                        result == Err::<InstructionView, State<E>>(
                            State::OperandExceeded((start + 4 * needed) as usize, number),
                        )
                    } else {
                        result is Ok
                    }
                }
            }
        }),
{
    let slots = instruction.operands@;
    let start = at.offset;
    let word = word_at(cx.bytes, start as int);
    let count = count_at(cx.bytes, start);
    assert(word_count(word) == count);
    assert(opcode(word) == code_at(cx.bytes, start));
    let from = Cursor { offset: start + 4, limit: Some((count - 1) as nat) };
    law_operand_errors_are_reported::<E>(cx, at, word, instruction);
    if words_there(cx.bytes, start) < 4 {
        lemma_two_ids_missing::<E>(cx, slots, start, from);
    } else {
        lemma_two_ids_read::<E>(cx, slots, start, from);
        lemma_operation_problem::<E>(
            cx,
            slots,
            start,
            Draft {
                result_type: Some(word_at(cx.bytes, start as int + 4)),
                result_id: Some(word_at(cx.bytes, start as int + 8)),
                operands: Seq::empty(),
            },
            Cursor { offset: start + 12, limit: Some((count - 3) as nat) },
        );
        reveal(read_inst);
    }
}

} // verus!
