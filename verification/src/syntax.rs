//! The syntax of a module: what its header and its instructions are, as
//! functions of a grammar and the bytes of a binary.

use crate::decoder::{
    read_enumerant, read_int64, read_string, read_word, read_words, skip_string, Cursor, Reading,
};
use crate::grammar::{
    BasicKind, EnumKind, Grammar, LogicalOperand, OperandKind, OperandQuantifier,
};
use crate::mr::{InstructionView, ModuleHeader, OperandView};
use crate::spirv::{reversed_word, Word, MAGIC_NUMBER, WORD_NUM_BYTES};
use crate::state::State;
use crate::tracker::{types_after, Type};
use crate::version::{version_of_word, word_of_version};
use vstd::prelude::*;

verus! {

/// How many words a module header takes.
pub const HEADER_NUM_WORDS: usize = 5;

/// What an instruction is read against: the grammar, the whole binary, the
/// numeric types known so far, and the number of the instruction.
pub struct Context {
    pub grammar: Grammar,
    pub bytes: Seq<u8>,
    pub types: Map<Word, Type>,
    pub index: nat,
}

/// What comes of parsing something: the value or the state in which parsing
/// ended, and where the decoder stands afterwards.
pub struct Parse<T, E> {
    pub result: Result<T, State<E>>,
    pub rest: Cursor,
}

/// A reading as a parse: an error is an error of an operand.
pub open spec fn operand_parse<T, E>(reading: Reading<T>) -> Parse<T, E> {
    Parse {
        result: match reading.result {
            Ok(value) => Ok(value),
            Err(error) => Err(State::OperandError(error)),
        },
        rest: reading.rest,
    }
}

/// Reading a word as an operand.
pub open spec fn word_operand(
    bytes: Seq<u8>,
    operand: spec_fn(Word) -> OperandView,
    at: Cursor,
) -> Reading<OperandView> {
    let word = read_word(bytes, at);
    Reading {
        result: match word.result {
            Ok(value) => Ok(operand(value)),
            Err(error) => Err(error),
        },
        rest: word.rest,
    }
}

/// Reading one operand of a basic kind.
pub open spec fn read_basic(
    grammar: Grammar,
    bytes: Seq<u8>,
    kind: BasicKind,
    at: Cursor,
) -> Reading<OperandView> {
    match kind {
        BasicKind::IdRef => word_operand(bytes, |id: Word| OperandView::IdRef(id), at),
        BasicKind::IdScope => word_operand(bytes, |id: Word| OperandView::IdScope(id), at),
        BasicKind::IdMemorySemantics => word_operand(
            bytes,
            |id: Word| OperandView::IdMemorySemantics(id),
            at,
        ),
        BasicKind::LiteralInteger => word_operand(
            bytes,
            |value: Word| OperandView::LiteralInt32(value),
            at,
        ),
        BasicKind::LiteralExtInstInteger => word_operand(
            bytes,
            |number: Word| OperandView::LiteralExtInstInteger(number),
            at,
        ),
        BasicKind::LiteralString => {
            let text = read_string(bytes, at);
            Reading {
                result: match text.result {
                    Ok(text) => Ok(OperandView::LiteralString(text)),
                    Err(error) => Err(error),
                },
                rest: text.rest,
            }
        },
        BasicKind::Enumerant(kind) => {
            let value = read_enumerant(grammar, bytes, kind, at);
            Reading {
                result: match value.result {
                    Ok(value) => Ok(OperandView::Enumerant(kind, value)),
                    Err(error) => Err(error),
                },
                rest: value.rest,
            }
        },
    }
}

/// Reading operands of the kinds from the `k`-th on, behind those in `operands`.
pub open spec fn read_each(
    grammar: Grammar,
    bytes: Seq<u8>,
    kinds: Seq<BasicKind>,
    k: int,
    operands: Seq<OperandView>,
    at: Cursor,
) -> Reading<Seq<OperandView>>
    decreases kinds.len() - k,
{
    if k < 0 || k >= kinds.len() {
        Reading { result: Ok(operands), rest: at }
    } else {
        let next = read_basic(grammar, bytes, kinds[k], at);
        match next.result {
            Ok(operand) => read_each(
                grammar,
                bytes,
                kinds,
                k + 1,
                operands.push(operand),
                next.rest,
            ),
            Err(error) => Reading { result: Err(error), rest: next.rest },
        }
    }
}

/// The operands that a value of an enumeration brings along.
pub open spec fn enumerant_parameters(grammar: Grammar, kind: EnumKind, value: Word) -> Seq<
    BasicKind,
> {
    match grammar.enumeration(kind) {
        Some(enumeration) => enumeration.parameters(value),
        None => Seq::empty(),
    }
}

/// The basic kinds that a kind of operand is made of.
pub open spec fn components(kind: OperandKind) -> Seq<BasicKind> {
    match kind {
        OperandKind::PairLiteralIntegerIdRef => seq![BasicKind::LiteralInteger, BasicKind::IdRef],
        OperandKind::PairIdRefLiteralInteger => seq![BasicKind::IdRef, BasicKind::LiteralInteger],
        OperandKind::PairIdRefIdRef => seq![BasicKind::IdRef, BasicKind::IdRef],
        OperandKind::Basic(kind) => seq![kind],
        _ => Seq::empty(),
    }
}

/// Whether an operand of this kind is read in the same way in every instruction.
pub open spec fn is_self_contained(kind: OperandKind) -> bool {
    match kind {
        OperandKind::IdResultType => false,
        OperandKind::IdResult => false,
        OperandKind::LiteralContextDependentNumber => false,
        OperandKind::LiteralSpecConstantOpInteger => false,
        _ => true,
    }
}

/// Reading an operand of a self-contained kind, with all that belongs to it: the
/// parts of a pair, and the parameters of an enumerant.
pub open spec fn read_operand(
    grammar: Grammar,
    bytes: Seq<u8>,
    kind: OperandKind,
    at: Cursor,
) -> Reading<Seq<OperandView>> {
    match kind {
        OperandKind::Basic(BasicKind::Enumerant(kind)) => {
            let value = read_enumerant(grammar, bytes, kind, at);
            match value.result {
                Ok(word) => read_each(
                    grammar,
                    bytes,
                    enumerant_parameters(grammar, kind, word),
                    0,
                    seq![OperandView::Enumerant(kind, word)],
                    value.rest,
                ),
                Err(error) => Reading { result: Err(error), rest: value.rest },
            }
        },
        _ => read_each(grammar, bytes, components(kind), 0, Seq::empty(), at),
    }
}

/// Reading a two-word number as an operand.
pub open spec fn wide_operand(
    bytes: Seq<u8>,
    operand: spec_fn(u64) -> OperandView,
    at: Cursor,
) -> Reading<OperandView> {
    let number = read_int64(bytes, at);
    Reading {
        result: match number.result {
            Ok(value) => Ok(operand(value)),
            Err(error) => Err(error),
        },
        rest: number.rest,
    }
}

/// Parsing the number of a constant whose type has this id. A type that is not
/// known counts as one of a single word.
pub open spec fn read_literal<E>(cx: Context, type_id: Word, at: Cursor) -> Parse<OperandView, E> {
    if !cx.types.contains_key(type_id) {
        operand_parse(word_operand(cx.bytes, |value: Word| OperandView::LiteralInt32(value), at))
    } else {
        match cx.types[type_id] {
            Type::Integer(32, _) => operand_parse(
                word_operand(cx.bytes, |value: Word| OperandView::LiteralInt32(value), at),
            ),
            Type::Integer(64, _) => operand_parse(
                wide_operand(cx.bytes, |value: u64| OperandView::LiteralInt64(value), at),
            ),
            Type::Float(32) => operand_parse(
                word_operand(cx.bytes, |bits: Word| OperandView::LiteralFloat32(bits), at),
            ),
            Type::Float(64) => operand_parse(
                wide_operand(cx.bytes, |bits: u64| OperandView::LiteralFloat64(bits), at),
            ),
            _ => Parse {
                result: Err(State::TypeUnsupported(at.offset as usize, cx.index as usize)),
                rest: at,
            },
        }
    }
}

/// Reading an id for each of the logical operands, from the `k`-th on, that is an
/// id, behind the operands in `operands`.
pub open spec fn read_ids(
    bytes: Seq<u8>,
    slots: Seq<LogicalOperand>,
    k: int,
    operands: Seq<OperandView>,
    at: Cursor,
) -> Reading<Seq<OperandView>>
    decreases slots.len() - k,
{
    if k < 0 || k >= slots.len() {
        Reading { result: Ok(operands), rest: at }
    } else if slots[k].kind == OperandKind::Basic(BasicKind::IdRef) {
        let id = read_word(bytes, at);
        match id.result {
            Ok(id_word) => read_ids(
                bytes,
                slots,
                k + 1,
                operands.push(OperandView::IdRef(id_word)),
                id.rest,
            ),
            Err(error) => Reading { result: Err(error), rest: id.rest },
        }
    } else {
        read_ids(bytes, slots, k + 1, operands, at)
    }
}

/// Parsing the operation of an `OpSpecConstantOp`: the low half of a word is its
/// opcode, and an id follows for each id that the operation takes.
pub open spec fn read_spec_constant_op<E>(cx: Context, at: Cursor) -> Parse<Seq<OperandView>, E> {
    let number = read_word(cx.bytes, at);
    match number.result {
        Ok(value) => match cx.grammar.instruction((value % 0x1_0000) as u16) {
            Some(operation) => operand_parse(
                read_ids(
                    cx.bytes,
                    operation.operands@,
                    0,
                    seq![OperandView::LiteralSpecConstantOpInteger(operation.class.opcode)],
                    number.rest,
                ),
            ),
            None => Parse {
                result: Err(
                    State::SpecConstantOpIntegerIncorrect(
                        number.rest.offset as usize,
                        cx.index as usize,
                    ),
                ),
                rest: number.rest,
            },
        },
        Err(error) => Parse { result: Err(State::OperandError(error)), rest: number.rest },
    }
}

/// What has been read of an instruction.
pub struct Draft {
    pub result_type: Option<Word>,
    pub result_id: Option<Word>,
    pub operands: Seq<OperandView>,
}

/// An instruction of which nothing has been read.
pub open spec fn empty_draft() -> Draft {
    Draft { result_type: None, result_id: None, operands: Seq::empty() }
}

/// Parsing what stands for one logical operand.
#[verifier::opaque]
pub open spec fn read_slot<E>(cx: Context, kind: OperandKind, draft: Draft, at: Cursor) -> Parse<
    Draft,
    E,
> {
    match kind {
        OperandKind::IdResultType => {
            let id = read_word(cx.bytes, at);
            Parse {
                result: match id.result {
                    Ok(id) => Ok(Draft { result_type: Some(id), ..draft }),
                    Err(error) => Err(State::OperandError(error)),
                },
                rest: id.rest,
            }
        },
        OperandKind::IdResult => {
            let id = read_word(cx.bytes, at);
            Parse {
                result: match id.result {
                    Ok(id) => Ok(Draft { result_id: Some(id), ..draft }),
                    Err(error) => Err(State::OperandError(error)),
                },
                rest: id.rest,
            }
        },
        OperandKind::LiteralContextDependentNumber => {
            let number = read_literal::<E>(cx, draft.result_type->0, at);
            Parse {
                result: match number.result {
                    Ok(operand) => Ok(
                        Draft { operands: draft.operands.push(operand), ..draft },
                    ),
                    Err(state) => Err(state),
                },
                rest: number.rest,
            }
        },
        OperandKind::LiteralSpecConstantOpInteger => {
            let operation = read_spec_constant_op::<E>(cx, at);
            Parse {
                result: match operation.result {
                    Ok(operands) => Ok(Draft { operands: draft.operands + operands, ..draft }),
                    Err(state) => Err(state),
                },
                rest: operation.rest,
            }
        },
        _ => {
            let operand = read_operand(cx.grammar, cx.bytes, kind, at);
            Parse {
                result: match operand.result {
                    Ok(operands) => Ok(Draft { operands: draft.operands + operands, ..draft }),
                    Err(error) => Err(State::OperandError(error)),
                },
                rest: operand.rest,
            }
        },
    }
}

/// Whether the words between two cursors are accounted for by the limit.
pub open spec fn in_step(at: Cursor, rest: Cursor) -> bool {
    &&& at.offset <= rest.offset
    &&& match (at.limit, rest.limit) {
        (Some(before), Some(after)) => WORD_NUM_BYTES * (before - after) == rest.offset
            - at.offset,
        (None, None) => true,
        _ => false,
    }
}

/// Whether something lies between two cursors, all of it inside the binary.
pub open spec fn onward(bytes: Seq<u8>, at: Cursor, rest: Cursor) -> bool {
    at.offset < rest.offset <= bytes.len() && in_step(at, rest)
}

pub proof fn lemma_string_onward(bytes: Seq<u8>, at: Cursor)
    ensures
        skip_string(bytes, at).result is Ok ==> onward(bytes, at, skip_string(bytes, at).rest),
    decreases bytes.len() - at.offset,
{
    let word = read_word(bytes, at);
    if word.result is Ok && bytes[at.offset as int + 3] != 0 {
        lemma_string_onward(bytes, word.rest);
    }
}

pub proof fn lemma_basic_onward(grammar: Grammar, bytes: Seq<u8>, kind: BasicKind, at: Cursor)
    ensures
        read_basic(grammar, bytes, kind, at).result is Ok ==> onward(
            bytes,
            at,
            read_basic(grammar, bytes, kind, at).rest,
        ),
{
    lemma_string_onward(bytes, at);
}

pub proof fn lemma_each_onward(
    grammar: Grammar,
    bytes: Seq<u8>,
    kinds: Seq<BasicKind>,
    k: int,
    operands: Seq<OperandView>,
    at: Cursor,
)
    ensures
        ({
            let each = read_each(grammar, bytes, kinds, k, operands, at);
            each.result is Ok ==> if 0 <= k < kinds.len() {
                onward(bytes, at, each.rest)
            } else {
                each.rest == at
            }
        }),
    decreases kinds.len() - k,
{
    if 0 <= k < kinds.len() {
        lemma_basic_onward(grammar, bytes, kinds[k], at);
        let next = read_basic(grammar, bytes, kinds[k], at);
        if let Ok(operand) = next.result {
            lemma_each_onward(grammar, bytes, kinds, k + 1, operands.push(operand), next.rest);
        }
    }
}

proof fn lemma_operand_onward(grammar: Grammar, bytes: Seq<u8>, kind: OperandKind, at: Cursor)
    requires
        is_self_contained(kind),
    ensures
        read_operand(grammar, bytes, kind, at).result is Ok ==> onward(
            bytes,
            at,
            read_operand(grammar, bytes, kind, at).rest,
        ),
{
    match kind {
        OperandKind::Basic(BasicKind::Enumerant(kind)) => {
            let value = read_enumerant(grammar, bytes, kind, at);
            if let Ok(word) = value.result {
                lemma_each_onward(
                    grammar,
                    bytes,
                    enumerant_parameters(grammar, kind, word),
                    0,
                    seq![OperandView::Enumerant(kind, word)],
                    value.rest,
                );
            }
        },
        _ => {
            lemma_each_onward(grammar, bytes, components(kind), 0, Seq::empty(), at);
        },
    }
}

pub proof fn lemma_ids_onward(
    bytes: Seq<u8>,
    slots: Seq<LogicalOperand>,
    k: int,
    operands: Seq<OperandView>,
    at: Cursor,
)
    ensures
        ({
            let ids = read_ids(bytes, slots, k, operands, at);
            ids.result is Ok ==> ids.rest == at || onward(bytes, at, ids.rest)
        }),
    decreases slots.len() - k,
{
    if 0 <= k < slots.len() {
        if slots[k].kind == OperandKind::Basic(BasicKind::IdRef) {
            let id = read_word(bytes, at);
            if let Ok(id_word) = id.result {
                lemma_ids_onward(
                    bytes,
                    slots,
                    k + 1,
                    operands.push(OperandView::IdRef(id_word)),
                    id.rest,
                );
            }
        } else {
            lemma_ids_onward(bytes, slots, k + 1, operands, at);
        }
    }
}

/// Whatever stands for a logical operand takes at least one word.
pub proof fn lemma_slot_onward<E>(cx: Context, kind: OperandKind, draft: Draft, at: Cursor)
    ensures
        read_slot::<E>(cx, kind, draft, at).result is Ok ==> onward(
            cx.bytes,
            at,
            read_slot::<E>(cx, kind, draft, at).rest,
        ),
{
    reveal(read_slot);
    match kind {
        OperandKind::LiteralSpecConstantOpInteger => {
            let number = read_word(cx.bytes, at);
            if let Ok(value) = number.result {
                if let Some(operation) = cx.grammar.instruction((value % 0x1_0000) as u16) {
                    lemma_ids_onward(
                        cx.bytes,
                        operation.operands@,
                        0,
                        seq![OperandView::LiteralSpecConstantOpInteger(operation.class.opcode)],
                        number.rest,
                    );
                }
            }
        },
        _ => {
            if is_self_contained(kind) {
                lemma_operand_onward(cx.grammar, cx.bytes, kind, at);
            }
        },
    }
}

/// Parsing what stands for the logical operands from the `k`-th on. One that may
/// occur more than once takes everything up to the limit. Where the limit has
/// been reached, those that must occur are missing.
pub open spec fn read_slots<E>(
    cx: Context,
    slots: Seq<LogicalOperand>,
    k: int,
    draft: Draft,
    at: Cursor,
) -> Parse<Draft, E>
    decreases slots.len() - k, cx.bytes.len() - at.offset,
{
    if k < 0 || k >= slots.len() {
        Parse { result: Ok(draft), rest: at }
    } else if at.limit == Some(0nat) {
        Parse {
            result: match slots[k].quantifier {
                OperandQuantifier::One => Err(
                    State::OperandExpected(at.offset as usize, cx.index as usize),
                ),
                _ => Ok(draft),
            },
            rest: at,
        }
    } else {
        let slot = read_slot::<E>(cx, slots[k].kind, draft, at);
        proof {
            lemma_slot_onward::<E>(cx, slots[k].kind, draft, at);
        }
        match slot.result {
            Ok(longer) => match slots[k].quantifier {
                OperandQuantifier::ZeroOrMore => read_slots(cx, slots, k, longer, slot.rest),
                _ => read_slots(cx, slots, k + 1, longer, slot.rest),
            },
            Err(state) => Parse { result: Err(state), rest: slot.rest },
        }
    }
}

/// The word count that the first word of an instruction holds: its high half.
pub open spec fn word_count(word: Word) -> u16 {
    (word / 0x1_0000) as u16
}

/// The opcode that the first word of an instruction holds: its low half.
pub open spec fn opcode(word: Word) -> u16 {
    (word % 0x1_0000) as u16
}

/// Parsing an instruction. Its word count limits what its operands may take, and
/// operands in which nothing is wrong have to use it up. Where no whole word is
/// left, the module is complete.
#[verifier::opaque]
pub open spec fn read_inst<E>(cx: Context, at: Cursor) -> Parse<InstructionView, E> {
    let first = read_word(cx.bytes, at);
    match first.result {
        Err(_) => Parse { result: Err(State::Complete), rest: first.rest },
        Ok(word) => if word_count(word) == 0 {
            Parse {
                result: Err(State::WordCountZero(at.offset as usize, cx.index as usize)),
                rest: first.rest,
            }
        } else {
            match cx.grammar.instruction(opcode(word)) {
                None => Parse {
                    result: Err(
                        State::OpcodeUnknown(at.offset as usize, cx.index as usize, opcode(word)),
                    ),
                    rest: first.rest,
                },
                Some(instruction) => {
                    let slots = read_slots::<E>(
                        cx,
                        instruction.operands@,
                        0,
                        empty_draft(),
                        Cursor {
                            offset: first.rest.offset,
                            limit: Some((word_count(word) - 1) as nat),
                        },
                    );
                    if slots.rest.limit != Some(0nat) {
                        Parse {
                            result: match slots.result {
                                Ok(_) => Err(
                                    State::OperandExceeded(
                                        slots.rest.offset as usize,
                                        cx.index as usize,
                                    ),
                                ),
                                Err(state) => Err(state),
                            },
                            rest: slots.rest,
                        }
                    } else {
                        Parse {
                            result: match slots.result {
                                Ok(draft) => Ok(
                                    InstructionView {
                                        class: instruction.class,
                                        result_type: draft.result_type,
                                        result_id: draft.result_id,
                                        operands: draft.operands,
                                    },
                                ),
                                Err(state) => Err(state),
                            },
                            rest: Cursor { offset: slots.rest.offset, limit: None },
                        }
                    }
                },
            }
        },
    }
}

/// Parsing a module header: the magic number, the version, the generator, the
/// bound on the ids, and a reserved word.
pub open spec fn read_header<E>(bytes: Seq<u8>, at: Cursor) -> Parse<ModuleHeader, E> {
    let header = read_words(bytes, HEADER_NUM_WORDS as nat, Seq::empty(), at);
    Parse {
        result: match header.result {
            Err(error) => Err(State::HeaderIncomplete(error)),
            Ok(words) => if words[0] == MAGIC_NUMBER {
                let (major, minor) = version_of_word(words[1]);
                Ok(ModuleHeader { version: word_of_version(major, minor), bound: words[3] })
            } else if words[0] == reversed_word(MAGIC_NUMBER) {
                Err(State::EndiannessUnsupported)
            } else {
                Err(State::HeaderIncorrect)
            },
        },
        rest: header.rest,
    }
}

pub proof fn lemma_slots_onward<E>(
    cx: Context,
    slots: Seq<LogicalOperand>,
    k: int,
    draft: Draft,
    at: Cursor,
)
    requires
        at.offset <= cx.bytes.len(),
    ensures
        ({
            let parse = read_slots::<E>(cx, slots, k, draft, at);
            parse.result is Ok ==> in_step(at, parse.rest) && parse.rest.offset <= cx.bytes.len()
        }),
    decreases slots.len() - k, cx.bytes.len() - at.offset,
{
    if 0 <= k < slots.len() && at.limit != Some(0nat) {
        let slot = read_slot::<E>(cx, slots[k].kind, draft, at);
        lemma_slot_onward::<E>(cx, slots[k].kind, draft, at);
        if let Ok(longer) = slot.result {
            match slots[k].quantifier {
                OperandQuantifier::ZeroOrMore => {
                    lemma_slots_onward::<E>(cx, slots, k, longer, slot.rest);
                },
                _ => {
                    lemma_slots_onward::<E>(cx, slots, k + 1, longer, slot.rest);
                },
            }
        }
    }
}

/// An instruction takes exactly as many words as its first word says, all of them
/// inside the binary, and leaves no limit behind.
pub proof fn law_word_count_is_used_up<E>(cx: Context, at: Cursor)
    ensures
        ({
            let parse = read_inst::<E>(cx, at);
            parse.result is Ok ==> {
                &&& read_word(cx.bytes, at).result matches Ok(word)
                &&& word_count(word) >= 1
                &&& parse.rest == Cursor {
                    offset: at.offset + WORD_NUM_BYTES as nat * word_count(word) as nat,
                    limit: None,
                }
                &&& parse.rest.offset <= cx.bytes.len()
            }
        }),
{
    reveal(read_inst);
    let first = read_word(cx.bytes, at);
    if let Ok(word) = first.result {
        if word_count(word) != 0 {
            if let Some(instruction) = cx.grammar.instruction(opcode(word)) {
                lemma_slots_onward::<E>(
                    cx,
                    instruction.operands@,
                    0,
                    empty_draft(),
                    Cursor {
                        offset: first.rest.offset,
                        limit: Some((word_count(word) - 1) as nat),
                    },
                );
            }
        }
    }
}

/// The context of the instruction after this one.
pub open spec fn after_instruction(cx: Context, instruction: InstructionView) -> Context {
    Context { types: types_after(cx.types, instruction), index: cx.index + 1, ..cx }
}

/// The instructions of a module, and the state in which parsing them ends.
pub struct Listing<E> {
    pub instructions: Seq<InstructionView>,
    pub end: State<E>,
}

/// Parsing instructions until one fails or the module is complete. The numeric
/// types that an instruction declares are known to those after it.
pub open spec fn read_listing<E>(cx: Context, at: Cursor) -> Listing<E>
    decreases cx.bytes.len() - at.offset,
{
    let parse = read_inst::<E>(cx, at);
    proof {
        law_word_count_is_used_up::<E>(cx, at);
    }
    match parse.result {
        Ok(instruction) => {
            let rest = read_listing::<E>(after_instruction(cx, instruction), parse.rest);
            Listing {
                instructions: seq![instruction] + rest.instructions,
                end: rest.end,
            }
        },
        Err(state) => Listing { instructions: Seq::empty(), end: state },
    }
}

} // verus!
