//! Which operands an instruction has, and which bytes they are.

use crate::decoder::is_enumerant;
use crate::grammar::{BasicKind, EnumKind, Grammar, LogicalOperand, OperandKind};
use crate::laws::completeness::{lemma_operand_size, lemma_operands_size};
use crate::laws::conformance::{are_of_kinds, is_of_kind, joined, number_of_ids, place, stands_for};
use crate::laws::encoding::{body_bytes, instruction_bytes, operand_bytes, operands_bytes};
use crate::laws::module::listing_bytes;
use crate::mr::{operand_views, Instruction, InstructionView, Operand, OperandView};
use crate::spirv::{word_bytes, Word};
use crate::syntax::{components, enumerant_parameters};
use crate::tracker::Type;
use vstd::prelude::*;
use vstd::utf8::encode_utf8;

verus! {

/// An operand is of the same kind as its view, and holds the same.
pub proof fn law_views_of_operands(operand: Operand)
    ensures
        match operand {
            Operand::IdRef(id) => operand@ == OperandView::IdRef(id),
            Operand::IdScope(id) => operand@ == OperandView::IdScope(id),
            Operand::IdMemorySemantics(id) => operand@ == OperandView::IdMemorySemantics(id),
            Operand::LiteralInt32(value) => operand@ == OperandView::LiteralInt32(value),
            Operand::LiteralInt64(value) => operand@ == OperandView::LiteralInt64(value),
            Operand::LiteralFloat32(bits) => operand@ == OperandView::LiteralFloat32(bits),
            Operand::LiteralFloat64(bits) => operand@ == OperandView::LiteralFloat64(bits),
            Operand::LiteralExtInstInteger(number) => operand@
                == OperandView::LiteralExtInstInteger(number),
            Operand::LiteralSpecConstantOpInteger(code) => operand@
                == OperandView::LiteralSpecConstantOpInteger(code),
            Operand::LiteralString(text) => operand@ == OperandView::LiteralString(text@),
            Operand::Enumerant(kind, value) => operand@ == OperandView::Enumerant(kind, value),
        },
{
}

/// An instruction has the class, the results and as many operands as its view, and each
/// operand in its place.
pub proof fn law_views_of_instructions(inst: Instruction)
    ensures
        inst@.class == inst.class,
        inst@.result_type == inst.result_type,
        inst@.result_id == inst.result_id,
        inst@.operands.len() == inst.operands@.len(),
        forall|i: int|
            0 <= i < inst.operands@.len() ==> #[trigger] inst@.operands[i] == inst.operands@[i]@,
        inst@.operands == operand_views(inst.operands@),
{
}

/// For an id, a scope, memory semantics, an integer and an extended instruction there
/// is one operand of its own kind. For each kind of pair there are the two that it is
/// named after, in that order. For a result type and a result id there is none.
#[verifier::rlimit(50)]
pub proof fn law_operands_of_plain_kinds(
    grammar: Grammar,
    types: Map<Word, Type>,
    result_type: Option<Word>,
    operands: Seq<OperandView>,
)
    ensures
        stands_for(
            grammar,
            types,
            result_type,
            OperandKind::Basic(BasicKind::IdRef),
            operands,
        ) <==> operands.len() == 1 && operands[0] is IdRef,
        stands_for(
            grammar,
            types,
            result_type,
            OperandKind::Basic(BasicKind::IdScope),
            operands,
        ) <==> operands.len() == 1 && operands[0] is IdScope,
        stands_for(
            grammar,
            types,
            result_type,
            OperandKind::Basic(BasicKind::IdMemorySemantics),
            operands,
        ) <==> operands.len() == 1 && operands[0] is IdMemorySemantics,
        stands_for(
            grammar,
            types,
            result_type,
            OperandKind::Basic(BasicKind::LiteralInteger),
            operands,
        ) <==> operands.len() == 1 && operands[0] is LiteralInt32,
        stands_for(
            grammar,
            types,
            result_type,
            OperandKind::Basic(BasicKind::LiteralExtInstInteger),
            operands,
        ) <==> operands.len() == 1 && operands[0] is LiteralExtInstInteger,
        stands_for(
            grammar,
            types,
            result_type,
            OperandKind::PairLiteralIntegerIdRef,
            operands,
        ) <==> operands.len() == 2 && operands[0] is LiteralInt32 && operands[1] is IdRef,
        stands_for(
            grammar,
            types,
            result_type,
            OperandKind::PairIdRefLiteralInteger,
            operands,
        ) <==> operands.len() == 2 && operands[0] is IdRef && operands[1] is LiteralInt32,
        stands_for(
            grammar,
            types,
            result_type,
            OperandKind::PairIdRefIdRef,
            operands,
        ) <==> operands.len() == 2 && operands[0] is IdRef && operands[1] is IdRef,
        stands_for(grammar, types, result_type, OperandKind::IdResultType, operands)
            <==> operands.len() == 0,
        stands_for(grammar, types, result_type, OperandKind::IdResult, operands)
            <==> operands.len() == 0,
{
    assert(components(OperandKind::Basic(BasicKind::IdRef)) =~= seq![BasicKind::IdRef]);
    assert(components(OperandKind::Basic(BasicKind::IdScope)) =~= seq![BasicKind::IdScope]);
    assert(components(OperandKind::PairIdRefIdRef) =~= seq![BasicKind::IdRef, BasicKind::IdRef]);
}

/// For a string there is one operand, a string that neither ends with a nul byte nor
/// has one at the end of a word.
pub proof fn law_operands_of_strings(
    grammar: Grammar,
    types: Map<Word, Type>,
    result_type: Option<Word>,
    operands: Seq<OperandView>,
)
    ensures
        stands_for(
            grammar,
            types,
            result_type,
            OperandKind::Basic(BasicKind::LiteralString),
            operands,
        ) <==> {
            &&& operands.len() == 1
            &&& operands[0] matches OperandView::LiteralString(text)
            &&& encode_utf8(text).len() > 0 ==> encode_utf8(text).last() != 0
            &&& forall|i: int|
                0 <= i < encode_utf8(text).len() && i % 4 == 3 ==> #[trigger] encode_utf8(text)[i]
                    != 0
        },
{
}

/// For an enumerant there is one operand, a value that the enumeration knows, and
/// behind it one for each of the parameters of that value, of its kind.
#[verifier::rlimit(50)]
pub proof fn law_operands_of_enumerants(
    grammar: Grammar,
    types: Map<Word, Type>,
    result_type: Option<Word>,
    kind: EnumKind,
    operands: Seq<OperandView>,
)
    ensures
        stands_for(
            grammar,
            types,
            result_type,
            OperandKind::Basic(BasicKind::Enumerant(kind)),
            operands,
        ) <==> {
            &&& operands.len() >= 1
            &&& operands[0] matches OperandView::Enumerant(found, value)
            &&& found == kind
            &&& grammar.enumeration(kind) matches Some(enumeration)
            &&& enumeration.knows(value)
            &&& operands.len() == 1 + enumeration.parameters(value).len()
            &&& forall|i: int|
                1 <= i < operands.len() ==> is_of_kind(
                    grammar,
                    enumeration.parameters(value)[i - 1],
                    #[trigger] operands[i],
                )
        },
{
    let stands = stands_for(
        grammar,
        types,
        result_type,
        OperandKind::Basic(BasicKind::Enumerant(kind)),
        operands,
    );
    if operands.len() >= 1 && operands[0] is Enumerant {
        let value = operands[0]->Enumerant_1;
        if is_enumerant(grammar, kind, value) {
            let kinds = grammar.enumeration(kind)->0.parameters(value);
            let later = operands.skip(1);
            assert(enumerant_parameters(grammar, kind, value) == kinds);
            if are_of_kinds(grammar, kinds, later) {
                assert forall|i: int| 1 <= i < operands.len() implies is_of_kind(
                    grammar,
                    kinds[i - 1],
                    #[trigger] operands[i],
                ) by {
                    assert(is_of_kind(grammar, kinds[i - 1], later[i - 1]));
                }
            }
            if operands.len() == 1 + kinds.len() && (forall|i: int|
                1 <= i < operands.len() ==> is_of_kind(
                    grammar,
                    kinds[i - 1],
                    #[trigger] operands[i],
                )) {
                assert forall|i: int| 0 <= i < kinds.len() implies is_of_kind(
                    grammar,
                    kinds[i],
                    #[trigger] later[i],
                ) by {
                    assert(is_of_kind(grammar, kinds[(i + 1) - 1], operands[i + 1]));
                }
            }
        }
    }
}

/// A parameter of an enumerant is one operand of its kind. Where it is an enumerant
/// itself, it is a value that its enumeration knows, without further parameters.
pub proof fn law_parameters_are_single_operands(
    grammar: Grammar,
    kind: EnumKind,
    operand: OperandView,
)
    ensures
        is_of_kind(grammar, BasicKind::IdRef, operand) <==> operand is IdRef,
        is_of_kind(grammar, BasicKind::IdScope, operand) <==> operand is IdScope,
        is_of_kind(grammar, BasicKind::IdMemorySemantics, operand)
            <==> operand is IdMemorySemantics,
        is_of_kind(grammar, BasicKind::LiteralInteger, operand) <==> operand is LiteralInt32,
        is_of_kind(grammar, BasicKind::LiteralExtInstInteger, operand)
            <==> operand is LiteralExtInstInteger,
        is_of_kind(grammar, BasicKind::LiteralString, operand) ==> operand is LiteralString,
        is_of_kind(grammar, BasicKind::Enumerant(kind), operand) <==> {
            &&& operand matches OperandView::Enumerant(found, value)
            &&& found == kind
            &&& grammar.enumeration(kind) matches Some(enumeration)
            &&& enumeration.knows(value)
        },
{
}

/// For a number there is one operand. It is an integer or a floating-point number as
/// the result type says, with as many bits, which are 32 or 64; where the result type
/// is not known, it is an integer of 32 bits.
pub proof fn law_operands_of_numbers(
    grammar: Grammar,
    types: Map<Word, Type>,
    type_id: Word,
    operands: Seq<OperandView>,
)
    ensures
        stands_for(
            grammar,
            types,
            Some(type_id),
            OperandKind::LiteralContextDependentNumber,
            operands,
        ) <==> {
            let known = types.contains_key(type_id);
            &&& operands.len() == 1
            &&& match operands[0] {
                OperandView::LiteralInt32(_) => !known || (types[type_id] matches Type::Integer(
                    width,
                    _,
                ) && width == 32),
                OperandView::LiteralInt64(_) => known && (types[type_id] matches Type::Integer(
                    width,
                    _,
                ) && width == 64),
                OperandView::LiteralFloat32(_) => known && types[type_id] == Type::Float(32),
                OperandView::LiteralFloat64(_) => known && types[type_id] == Type::Float(64),
                _ => false,
            }
        },
{
}

/// The logical operands that are ids.
pub open spec fn ids_of(slots: Seq<LogicalOperand>) -> Seq<LogicalOperand> {
    slots.filter(|slot: LogicalOperand| slot.kind == OperandKind::Basic(BasicKind::IdRef))
}

pub proof fn lemma_ids_counted(slots: Seq<LogicalOperand>, k: int)
    requires
        0 <= k <= slots.len(),
    ensures
        number_of_ids(slots, k) + ids_of(slots.take(k)).len() == ids_of(slots).len(),
    decreases slots.len() - k,
{
    if k < slots.len() {
        lemma_ids_counted(slots, k + 1);
        assert(slots.take(k + 1).drop_last() =~= slots.take(k));
        assert(slots.take(k + 1).last() == slots[k]);
        reveal(Seq::filter);
        assert(ids_of(slots.take(k + 1)).len() == ids_of(slots.take(k)).len() + if slots[k].kind
            == OperandKind::Basic(BasicKind::IdRef) {
            1nat
        } else {
            0nat
        });
    } else {
        assert(slots.take(k) =~= slots);
    }
}

/// For the operation of an `OpSpecConstantOp` there is its opcode, which the grammar
/// has, and behind it an id for each logical operand of the operation that is one.
pub proof fn law_operands_of_operations(
    grammar: Grammar,
    types: Map<Word, Type>,
    result_type: Option<Word>,
    operands: Seq<OperandView>,
)
    ensures
        stands_for(
            grammar,
            types,
            result_type,
            OperandKind::LiteralSpecConstantOpInteger,
            operands,
        ) <==> {
            &&& operands.len() >= 1
            &&& operands[0] matches OperandView::LiteralSpecConstantOpInteger(code)
            &&& grammar.instruction(code) matches Some(operation)
            &&& operands.len() == 1 + ids_of(operation.operands@).len()
            &&& forall|i: int| 1 <= i < operands.len() ==> (#[trigger] operands[i]) is IdRef
        },
{
    if operands.len() >= 1 {
        if let OperandView::LiteralSpecConstantOpInteger(code) = operands[0] {
            if let Some(operation) = grammar.instruction(code) {
                lemma_ids_counted(operation.operands@, 0);
                assert(operation.operands@.take(0) =~= Seq::empty());
                reveal(Seq::filter);
            }
        }
    }
}

/// Shares stand for the logical operands one after another, up to the first one that
/// may occur any number of times, which all further ones stand for.
pub proof fn law_shares_follow_the_logical_operands(slots: Seq<LogicalOperand>, k: int, i: int)
    requires
        0 <= i,
        0 <= k < slots.len(),
        slots[k].quantifier is ZeroOrMore || k == slots.len() - 1,
        forall|j: int| 0 <= j < k ==> !((#[trigger] slots[j]).quantifier is ZeroOrMore),
    ensures
        i <= k ==> place(slots, i) == i,
        i > k && slots[k].quantifier is ZeroOrMore ==> place(slots, i) == k,
        i == k + 1 && !(slots[k].quantifier is ZeroOrMore) ==> place(slots, i) == slots.len(),
    decreases i,
{
    if i > 0 {
        law_shares_follow_the_logical_operands(slots, k, i - 1);
    }
}

/// The operands of an instruction are those of its shares, one share after another.
pub proof fn law_shares_are_joined(shares: Seq<Seq<OperandView>>)
    ensures
        joined(shares) == shares.flatten(),
    decreases shares.len(),
{
    if shares.len() > 0 {
        law_shares_are_joined(shares.drop_last());
        shares.drop_last().lemma_flatten_push(shares.last());
        assert(shares.drop_last().push(shares.last()) =~= shares);
    }
}

/// The bytes of an operand of one word are those of the word.
pub proof fn law_bytes_of_words(operand: OperandView)
    ensures
        match operand {
            OperandView::IdRef(word) => operand_bytes(operand) == word_bytes(word),
            OperandView::IdScope(word) => operand_bytes(operand) == word_bytes(word),
            OperandView::IdMemorySemantics(word) => operand_bytes(operand) == word_bytes(word),
            OperandView::LiteralInt32(word) => operand_bytes(operand) == word_bytes(word),
            OperandView::LiteralFloat32(word) => operand_bytes(operand) == word_bytes(word),
            OperandView::LiteralExtInstInteger(word) => operand_bytes(operand) == word_bytes(word),
            OperandView::Enumerant(_, word) => operand_bytes(operand) == word_bytes(word),
            OperandView::LiteralSpecConstantOpInteger(code) => operand_bytes(operand)
                == word_bytes(code as Word),
            _ => true,
        },
{
}

/// The bytes of a number of two words are the four of a low-order word and then the
/// four of a high-order one, which make up the number.
#[verifier::rlimit(50)]
pub proof fn law_bytes_of_two_words(value: u64)
    ensures
        operand_bytes(OperandView::LiteralInt64(value)) == operand_bytes(
            OperandView::LiteralFloat64(value),
        ),
        exists|low: Word, high: Word|
            operand_bytes(OperandView::LiteralInt64(value)) == #[trigger] word_bytes(low)
                + #[trigger] word_bytes(high) && value == low + 0x1_0000_0000 * high,
{
    let low = (value % 0x1_0000_0000) as Word;
    let high = (value / 0x1_0000_0000) as Word;
    assert(value == low + 0x1_0000_0000 * high);
    assert(operand_bytes(OperandView::LiteralInt64(value)) == word_bytes(low) + word_bytes(high));
}

/// The bytes of a string are its UTF-8, and then as many nul bytes, at least one, as
/// make whole words.
#[verifier::rlimit(50)]
pub proof fn law_bytes_of_strings(text: Seq<char>)
    ensures
        ({
            let bytes = operand_bytes(OperandView::LiteralString(text));
            let encoded = encode_utf8(text);
            &&& bytes.len() % 4 == 0
            &&& encoded.len() < bytes.len() <= encoded.len() + 4
            &&& bytes.take(encoded.len() as int) == encoded
            &&& forall|i: int| encoded.len() <= i < bytes.len() ==> #[trigger] bytes[i] == 0
        }),
{
    lemma_operand_size(OperandView::LiteralString(text));
    let encoded = encode_utf8(text);
    assert(operand_bytes(OperandView::LiteralString(text)).take(encoded.len() as int) =~= encoded);
}

proof fn lemma_operands_flatten(operands: Seq<OperandView>)
    ensures
        operands_bytes(operands) == operands.map_values(
            |operand: OperandView| operand_bytes(operand),
        ).flatten(),
    decreases operands.len(),
{
    let parts = operands.map_values(|operand: OperandView| operand_bytes(operand));
    if operands.len() == 0 {
        assert(parts =~= Seq::empty());
    } else {
        let shorter = operands.drop_last();
        let before = shorter.map_values(|operand: OperandView| operand_bytes(operand));
        lemma_operands_flatten(shorter);
        assert(parts =~= before.push(operand_bytes(operands.last())));
        before.lemma_flatten_push(operand_bytes(operands.last()));
    }
}

/// The bytes of an instruction: its opcode in the first two, how many words it takes in
/// the next two, then its result type and its result id, if it has them, and its
/// operands.
#[verifier::rlimit(50)]
pub proof fn law_bytes_of_instructions(inst: InstructionView)
    requires
        instruction_bytes(inst).len() / 4 < 0x1_0000,
    ensures
        ({
            let bytes = instruction_bytes(inst);
            let types = match inst.result_type {
                Some(id) => word_bytes(id),
                None => Seq::empty(),
            };
            let results = match inst.result_id {
                Some(id) => word_bytes(id),
                None => Seq::empty(),
            };
            &&& bytes.len() >= 4
            &&& bytes.len() % 4 == 0
            &&& bytes[0] + 0x100 * bytes[1] == inst.class.opcode
            &&& bytes[2] + 0x100 * bytes[3] == bytes.len() / 4
            &&& bytes.skip(4) == types + results + inst.operands.map_values(
                |operand: OperandView| operand_bytes(operand),
            ).flatten()
        }),
{
    let body = body_bytes(inst.result_type, inst.result_id, inst.operands);
    lemma_operands_size(inst.operands);
    lemma_operands_flatten(inst.operands);
    assert(body.len() % 4 == 0);
    let word = (0x1_0000 * (1 + body.len() / 4) + inst.class.opcode) as Word;
    assert(instruction_bytes(inst).skip(4) =~= body);
}

proof fn lemma_listing_flatten(insts: Seq<InstructionView>, k: int)
    requires
        0 <= k <= insts.len(),
    ensures
        listing_bytes(insts, k) == insts.skip(k).map_values(
            |inst: InstructionView| instruction_bytes(inst),
        ).flatten(),
    decreases insts.len() - k,
{
    let parts = insts.skip(k).map_values(|inst: InstructionView| instruction_bytes(inst));
    if k < insts.len() {
        lemma_listing_flatten(insts, k + 1);
        assert(parts.drop_first() =~= insts.skip(k + 1).map_values(
            |inst: InstructionView| instruction_bytes(inst),
        ));
        assert(parts.first() == instruction_bytes(insts[k]));
    } else {
        assert(parts =~= Seq::empty());
    }
}

/// The bytes of the instructions of a module are those of each, one after another.
pub proof fn law_bytes_of_listings(insts: Seq<InstructionView>)
    ensures
        listing_bytes(insts, 0) == insts.map_values(
            |inst: InstructionView| instruction_bytes(inst),
        ).flatten(),
{
    lemma_listing_flatten(insts, 0);
    assert(insts.skip(0) =~= insts);
}

} // verus!
