//! An instruction is parsed if and only if it conforms to the grammar.

use crate::decoder::{is_enumerant, read_enumerant, read_string, read_word, trim_nul, Cursor};
use crate::grammar::{BasicKind, Grammar, LogicalOperand, OperandKind, OperandQuantifier};
use crate::laws::encoding::{
    lemma_instruction_has_opcode, lemma_trim, lemma_words_go_on, results_come_first,
};
use crate::mr::{InstructionView, OperandView};
use crate::spirv::Word;
use crate::syntax::{
    components, empty_draft, enumerant_parameters, lemma_slot_onward, opcode, read_basic, read_each,
    read_ids, read_inst, read_literal, read_operand, read_slot, read_slots, read_spec_constant_op,
    word_count, Context, Draft,
};
use crate::tracker::Type;
use vstd::prelude::*;
use vstd::utf8::{decode_utf8_encode_utf8, encode_utf8};

verus! {

/// Whether a string can be told from its bytes: they do not end with a nul byte, and
/// no word of them does.
pub open spec fn is_delimited(text: Seq<char>) -> bool {
    let encoded = encode_utf8(text);
    &&& encoded.len() > 0 ==> encoded.last() != 0
    &&& forall|i: int| 0 <= i < encoded.len() && i % 4 == 3 ==> #[trigger] encoded[i] != 0
}

/// Whether an operand is of this kind.
pub open spec fn is_of_kind(grammar: Grammar, kind: BasicKind, operand: OperandView) -> bool {
    match (kind, operand) {
        (BasicKind::IdRef, OperandView::IdRef(_)) => true,
        (BasicKind::IdScope, OperandView::IdScope(_)) => true,
        (BasicKind::IdMemorySemantics, OperandView::IdMemorySemantics(_)) => true,
        (BasicKind::LiteralInteger, OperandView::LiteralInt32(_)) => true,
        (BasicKind::LiteralExtInstInteger, OperandView::LiteralExtInstInteger(_)) => true,
        (BasicKind::LiteralString, OperandView::LiteralString(text)) => is_delimited(text),
        (BasicKind::Enumerant(kind), OperandView::Enumerant(found, value)) => found == kind
            && is_enumerant(grammar, kind, value),
        _ => false,
    }
}

/// Whether operands are of these kinds, one of each, in this order.
pub open spec fn are_of_kinds(
    grammar: Grammar,
    kinds: Seq<BasicKind>,
    operands: Seq<OperandView>,
) -> bool {
    &&& operands.len() == kinds.len()
    &&& forall|i: int|
        0 <= i < kinds.len() ==> is_of_kind(grammar, kinds[i], #[trigger] operands[i])
}

/// How many of the logical operands from the `k`-th on are ids.
pub open spec fn number_of_ids(slots: Seq<LogicalOperand>, k: int) -> nat
    decreases slots.len() - k,
{
    if k < 0 || k >= slots.len() {
        0
    } else if slots[k].kind == OperandKind::Basic(BasicKind::IdRef) {
        1 + number_of_ids(slots, k + 1)
    } else {
        number_of_ids(slots, k + 1)
    }
}

/// Whether an operand is a number of the type with this id. Where that type is not
/// known, the number has one word.
pub open spec fn is_of_type(types: Map<Word, Type>, type_id: Word, operand: OperandView) -> bool {
    if !types.contains_key(type_id) {
        operand is LiteralInt32
    } else {
        match types[type_id] {
            Type::Integer(32, _) => operand is LiteralInt32,
            Type::Integer(64, _) => operand is LiteralInt64,
            Type::Float(32) => operand is LiteralFloat32,
            Type::Float(64) => operand is LiteralFloat64,
            _ => false,
        }
    }
}

/// Whether operands are what stands for a logical operand of this kind, in an
/// instruction with this result type.
pub open spec fn stands_for(
    grammar: Grammar,
    types: Map<Word, Type>,
    result_type: Option<Word>,
    kind: OperandKind,
    operands: Seq<OperandView>,
) -> bool {
    match kind {
        OperandKind::IdResultType => operands.len() == 0,
        OperandKind::IdResult => operands.len() == 0,
        OperandKind::LiteralContextDependentNumber => operands.len() == 1 && is_of_type(
            types,
            result_type->0,
            operands[0],
        ),
        OperandKind::LiteralSpecConstantOpInteger => {
            &&& operands.len() >= 1
            &&& operands[0] matches OperandView::LiteralSpecConstantOpInteger(code)
            &&& grammar.instruction(code) matches Some(operation)
            &&& operands.len() == 1 + number_of_ids(operation.operands@, 0)
            &&& forall|i: int| 1 <= i < operands.len() ==> (#[trigger] operands[i]) is IdRef
        },
        OperandKind::Basic(BasicKind::Enumerant(kind)) => {
            &&& operands.len() >= 1
            &&& operands[0] matches OperandView::Enumerant(found, value)
            &&& found == kind
            &&& is_enumerant(grammar, kind, value)
            &&& are_of_kinds(
                grammar,
                enumerant_parameters(grammar, kind, value),
                operands.skip(1),
            )
        },
        _ => are_of_kinds(grammar, components(kind), operands),
    }
}

/// Which logical operand the `i`-th share of an instruction stands for: each is the
/// next one, until one may occur any number of times.
pub open spec fn place(slots: Seq<LogicalOperand>, i: int) -> int
    decreases i,
{
    if i <= 0 {
        0
    } else {
        let before = place(slots, i - 1);
        if slots[before].quantifier == OperandQuantifier::ZeroOrMore {
            before
        } else {
            before + 1
        }
    }
}

/// The operands of some shares, one share after another.
pub open spec fn joined(shares: Seq<Seq<OperandView>>) -> Seq<OperandView>
    decreases shares.len(),
{
    if shares.len() == 0 {
        Seq::empty()
    } else {
        joined(shares.drop_last()) + shares.last()
    }
}

/// Whether one of the first `n` shares stands for a logical operand of this kind.
pub open spec fn has_share(slots: Seq<LogicalOperand>, n: nat, kind: OperandKind) -> bool {
    exists|i: int| 0 <= i < n && slots[#[trigger] place(slots, i)].kind == kind
}

/// Whether the operands of an instruction are these shares, each of them standing
/// for a logical operand, and there is a result type or a result id if one of
/// them stands for it.
pub open spec fn is_divided(
    grammar: Grammar,
    types: Map<Word, Type>,
    slots: Seq<LogicalOperand>,
    result_type: Option<Word>,
    result_id: Option<Word>,
    operands: Seq<OperandView>,
    shares: Seq<Seq<OperandView>>,
) -> bool {
    &&& forall|i: int| 0 <= i < shares.len() ==> #[trigger] place(slots, i) < slots.len()
    &&& forall|i: int|
        0 <= i < shares.len() ==> stands_for(
            grammar,
            types,
            result_type,
            slots[place(slots, i)].kind,
            #[trigger] shares[i],
        )
    &&& operands == joined(shares)
    &&& result_type is Some <==> has_share(slots, shares.len(), OperandKind::IdResultType)
    &&& result_id is Some <==> has_share(slots, shares.len(), OperandKind::IdResult)
}

/// Whether an instruction whose first shares are so many may end there: nothing that
/// has to occur comes next.
pub open spec fn may_end(slots: Seq<LogicalOperand>, n: nat) -> bool {
    place(slots, n as int) < slots.len() ==> slots[place(slots, n as int)].quantifier
        != OperandQuantifier::One
}

/// Whether an instruction conforms to the grammar: it is one that the grammar has,
/// and its operands can be divided up among the logical operands of that one.
pub open spec fn conforms(
    grammar: Grammar,
    types: Map<Word, Type>,
    inst: InstructionView,
) -> bool {
    &&& grammar.instruction(inst.class.opcode) matches Some(instruction)
    &&& instruction.class == inst.class
    &&& exists|shares: Seq<Seq<OperandView>>|
        is_divided(
            grammar,
            types,
            instruction.operands@,
            inst.result_type,
            inst.result_id,
            inst.operands,
            shares,
        ) && #[trigger] may_end(instruction.operands@, shares.len())
}

proof fn lemma_string_delimited(bytes: Seq<u8>, at: Cursor)
    ensures
        read_string(bytes, at).result matches Ok(text) ==> is_delimited(text),
{
    let reading = read_string(bytes, at);
    if let Ok(text) = reading.result {
        lemma_words_go_on(bytes, at);
        let raw = bytes.subrange(at.offset as int, reading.rest.offset as int);
        let trimmed = trim_nul(raw);
        lemma_trim(raw);
        decode_utf8_encode_utf8(trimmed);
        assert(encode_utf8(text) == trimmed);
        assert(forall|i: int| 0 <= i < trimmed.len() ==> #[trigger] trimmed[i] == raw[i]);
        assert forall|i: int| 0 <= i < trimmed.len() && i % 4 == 3 implies #[trigger] trimmed[i]
            != 0 by {
            assert(trimmed[i] == bytes[at.offset + i]);
        }
    }
}

pub proof fn lemma_basic_conforms(grammar: Grammar, bytes: Seq<u8>, kind: BasicKind, at: Cursor)
    ensures
        read_basic(grammar, bytes, kind, at).result matches Ok(operand) ==> is_of_kind(
            grammar,
            kind,
            operand,
        ),
{
    lemma_string_delimited(bytes, at);
}

proof fn lemma_each_conforms(
    grammar: Grammar,
    bytes: Seq<u8>,
    kinds: Seq<BasicKind>,
    k: int,
    operands: Seq<OperandView>,
    at: Cursor,
)
    requires
        0 <= k <= kinds.len(),
    ensures
        read_each(grammar, bytes, kinds, k, operands, at).result matches Ok(all) ==> {
            &&& all.len() == operands.len() + kinds.len() - k
            &&& forall|i: int| 0 <= i < operands.len() ==> #[trigger] all[i] == operands[i]
            &&& forall|i: int|
                operands.len() <= i < all.len() ==> is_of_kind(
                    grammar,
                    kinds[k + i - operands.len()],
                    #[trigger] all[i],
                )
        },
    decreases kinds.len() - k,
{
    if k < kinds.len() {
        lemma_basic_conforms(grammar, bytes, kinds[k], at);
        let next = read_basic(grammar, bytes, kinds[k], at);
        if let Ok(operand) = next.result {
            let longer = operands.push(operand);
            lemma_each_conforms(grammar, bytes, kinds, k + 1, longer, next.rest);
            if let Ok(all) = read_each(grammar, bytes, kinds, k, operands, at).result {
                assert forall|i: int| 0 <= i < operands.len() implies #[trigger] all[i]
                    == operands[i] by {
                    assert(all[i] == longer[i]);
                }
                assert(all[operands.len() as int] == longer[operands.len() as int]);
            }
        }
    }
}

#[verifier::rlimit(50)]
proof fn lemma_operand_conforms(grammar: Grammar, bytes: Seq<u8>, kind: OperandKind, at: Cursor)
    requires
        !(kind is LiteralSpecConstantOpInteger),
        !(kind is LiteralContextDependentNumber),
        !(kind is IdResultType),
        !(kind is IdResult),
    ensures
        read_operand(grammar, bytes, kind, at).result matches Ok(operands) ==> stands_for(
            grammar,
            Map::empty(),
            None,
            kind,
            operands,
        ),
{
    match kind {
        OperandKind::Basic(BasicKind::Enumerant(kind)) => {
            let value = read_enumerant(grammar, bytes, kind, at);
            if let Ok(word) = value.result {
                let kinds = enumerant_parameters(grammar, kind, word);
                let first = seq![OperandView::Enumerant(kind, word)];
                lemma_each_conforms(grammar, bytes, kinds, 0, first, value.rest);
                let each = read_each(grammar, bytes, kinds, 0, first, value.rest);
                if let Ok(all) = each.result {
                    assert(all[0] == first[0]);
                    assert forall|i: int| 0 <= i < kinds.len() implies is_of_kind(
                        grammar,
                        kinds[i],
                        #[trigger] all.skip(1)[i],
                    ) by {
                        assert(is_of_kind(grammar, kinds[0 + (i + 1) - 1], all[i + 1]));
                    }
                }
            }
        },
        _ => {
            let kinds = components(kind);
            lemma_each_conforms(grammar, bytes, kinds, 0, Seq::empty(), at);
            let each = read_each(grammar, bytes, kinds, 0, Seq::empty(), at);
            if let Ok(all) = each.result {
                assert forall|i: int| 0 <= i < kinds.len() implies is_of_kind(
                    grammar,
                    kinds[i],
                    #[trigger] all[i],
                ) by {
                    assert(is_of_kind(grammar, kinds[0 + i - 0], all[i]));
                }
            }
        },
    }
}

proof fn lemma_ids_conform(
    bytes: Seq<u8>,
    slots: Seq<LogicalOperand>,
    k: int,
    operands: Seq<OperandView>,
    at: Cursor,
)
    ensures
        read_ids(bytes, slots, k, operands, at).result matches Ok(all) ==> {
            &&& all.len() == operands.len() + number_of_ids(slots, k)
            &&& forall|i: int| 0 <= i < operands.len() ==> #[trigger] all[i] == operands[i]
            &&& forall|i: int| operands.len() <= i < all.len() ==> (#[trigger] all[i]) is IdRef
        },
    decreases slots.len() - k,
{
    if 0 <= k < slots.len() {
        if slots[k].kind == OperandKind::Basic(BasicKind::IdRef) {
            let id = read_word(bytes, at);
            if let Ok(id_word) = id.result {
                let longer = operands.push(OperandView::IdRef(id_word));
                lemma_ids_conform(bytes, slots, k + 1, longer, id.rest);
                if let Ok(all) = read_ids(bytes, slots, k, operands, at).result {
                    assert forall|i: int| 0 <= i < operands.len() implies #[trigger] all[i]
                        == operands[i] by {
                        assert(all[i] == longer[i]);
                    }
                    assert(all[operands.len() as int] == longer[operands.len() as int]);
                }
            }
        } else {
            lemma_ids_conform(bytes, slots, k + 1, operands, at);
        }
    }
}

proof fn lemma_operation_conforms<E>(cx: Context, at: Cursor)
    ensures
        read_spec_constant_op::<E>(cx, at).result matches Ok(operands) ==> stands_for(
            cx.grammar,
            cx.types,
            None,
            OperandKind::LiteralSpecConstantOpInteger,
            operands,
        ),
{
    let number = read_word(cx.bytes, at);
    if let Ok(value) = number.result {
        let code = (value % 0x1_0000) as u16;
        if let Some(operation) = cx.grammar.instruction(code) {
            let first = seq![OperandView::LiteralSpecConstantOpInteger(operation.class.opcode)];
            lemma_instruction_has_opcode(cx.grammar, code);
            lemma_ids_conform(cx.bytes, operation.operands@, 0, first, number.rest);
            if let Ok(all) = read_spec_constant_op::<E>(cx, at).result {
                assert(all[0] == first[0]);
            }
        }
    }
}

/// What a slot adds to a draft.
pub open spec fn addition(draft: Draft, longer: Draft) -> Seq<OperandView> {
    longer.operands.skip(draft.operands.len() as int)
}

#[verifier::rlimit(50)]
pub proof fn lemma_slot_conforms<E>(cx: Context, kind: OperandKind, draft: Draft, at: Cursor)
    ensures
        read_slot::<E>(cx, kind, draft, at).result matches Ok(longer) ==> {
            &&& longer.operands == draft.operands + addition(draft, longer)
            &&& stands_for(cx.grammar, cx.types, draft.result_type, kind, addition(draft, longer))
            &&& if kind is IdResultType {
                longer.result_type is Some
            } else {
                longer.result_type == draft.result_type
            }
            &&& if kind is IdResult {
                longer.result_id is Some
            } else {
                longer.result_id == draft.result_id
            }
        },
{
    reveal(read_slot);
    if let Ok(longer) = read_slot::<E>(cx, kind, draft, at).result {
        let share = addition(draft, longer);
        match kind {
            OperandKind::IdResultType | OperandKind::IdResult => {
                assert(share =~= Seq::empty());
            },
            OperandKind::LiteralContextDependentNumber => {
                let number = read_literal::<E>(cx, draft.result_type->0, at);
                assert(share =~= seq![number.result->Ok_0]);
            },
            OperandKind::LiteralSpecConstantOpInteger => {
                lemma_operation_conforms::<E>(cx, at);
                assert(share =~= read_spec_constant_op::<E>(cx, at).result->Ok_0);
            },
            _ => {
                lemma_operand_conforms(cx.grammar, cx.bytes, kind, at);
                assert(share =~= read_operand(cx.grammar, cx.bytes, kind, at).result->Ok_0);
            },
        }
        assert(longer.operands =~= draft.operands + share);
    }
}

/// Shares stand for later and later logical operands.
pub proof fn lemma_place_grows(slots: Seq<LogicalOperand>, i: int, j: int)
    requires
        0 <= i <= j,
    ensures
        0 <= place(slots, i) <= place(slots, j),
        i < j && slots[place(slots, i)].quantifier != OperandQuantifier::ZeroOrMore ==> place(
            slots,
            i,
        ) < place(slots, j),
    decreases j,
{
    if i < j {
        lemma_place_grows(slots, i, j - 1);
    } else if 0 < i {
        lemma_place_grows(slots, i - 1, i - 1);
    }
}

/// One of the first shares stands for a logical operand if the last of them does, or
/// one before it.
pub proof fn lemma_share_or_before(slots: Seq<LogicalOperand>, n: nat, wanted: OperandKind)
    ensures
        has_share(slots, n + 1, wanted) <==> has_share(slots, n, wanted) || slots[place(
            slots,
            n as int,
        )].kind == wanted,
{
    if slots[place(slots, n as int)].kind == wanted {
        assert(has_share(slots, n + 1, wanted));
    }
    if has_share(slots, n, wanted) {
        let i = choose|i: int|
            0 <= i < n && slots[#[trigger] place(slots, i)].kind == wanted;
        assert(slots[place(slots, i)].kind == wanted);
    }
}

#[verifier::rlimit(50)]
pub proof fn lemma_share_added(
    cx: Context,
    slots: Seq<LogicalOperand>,
    draft: Draft,
    longer: Draft,
    shares: Seq<Seq<OperandView>>,
)
    requires
        results_come_first(slots),
        place(slots, shares.len() as int) < slots.len(),
        is_divided(
            cx.grammar,
            cx.types,
            slots,
            draft.result_type,
            draft.result_id,
            draft.operands,
            shares,
        ),
        ({
            let kind = slots[place(slots, shares.len() as int)].kind;
            &&& longer.operands == draft.operands + addition(draft, longer)
            &&& stands_for(cx.grammar, cx.types, draft.result_type, kind, addition(draft, longer))
            &&& if kind is IdResultType {
                longer.result_type is Some
            } else {
                longer.result_type == draft.result_type
            }
            &&& if kind is IdResult {
                longer.result_id is Some
            } else {
                longer.result_id == draft.result_id
            }
        }),
    ensures
        is_divided(
            cx.grammar,
            cx.types,
            slots,
            longer.result_type,
            longer.result_id,
            longer.operands,
            shares.push(addition(draft, longer)),
        ),
{
    let n = shares.len() as int;
    let k = place(slots, n);
    let kind = slots[k].kind;
    let more = shares.push(addition(draft, longer));
    lemma_place_grows(slots, 0, n);
    assert forall|i: int| 0 <= i < more.len() implies stands_for(
        cx.grammar,
        cx.types,
        longer.result_type,
        slots[place(slots, i)].kind,
        #[trigger] more[i],
    ) by {
        if i < n {
            assert(more[i] == shares[i]);
        }
    }
    assert(more.drop_last() =~= shares);
    assert(joined(more) =~= longer.operands);
    lemma_share_or_before(slots, shares.len(), OperandKind::IdResultType);
    lemma_share_or_before(slots, shares.len(), OperandKind::IdResult);
}

proof fn lemma_slots_conform<E>(
    cx: Context,
    slots: Seq<LogicalOperand>,
    k: int,
    draft: Draft,
    at: Cursor,
    shares: Seq<Seq<OperandView>>,
) -> (all: Seq<Seq<OperandView>>)
    requires
        results_come_first(slots),
        k == place(slots, shares.len() as int),
        is_divided(
            cx.grammar,
            cx.types,
            slots,
            draft.result_type,
            draft.result_id,
            draft.operands,
            shares,
        ),
    ensures
        read_slots::<E>(cx, slots, k, draft, at).result matches Ok(longer) ==> may_end(
            slots,
            all.len(),
        ) && is_divided(
            cx.grammar,
            cx.types,
            slots,
            longer.result_type,
            longer.result_id,
            longer.operands,
            all,
        ),
    decreases slots.len() - k, cx.bytes.len() - at.offset,
{
    lemma_place_grows(slots, 0, shares.len() as int);
    if k < slots.len() && at.limit != Some(0nat) {
        let slot = read_slot::<E>(cx, slots[k].kind, draft, at);
        lemma_slot_onward::<E>(cx, slots[k].kind, draft, at);
        if let Ok(longer) = slot.result {
            lemma_slot_conforms::<E>(cx, slots[k].kind, draft, at);
            lemma_share_added(cx, slots, draft, longer, shares);
            let more = shares.push(addition(draft, longer));
            let next = place(slots, more.len() as int);
            lemma_slots_conform::<E>(cx, slots, next, longer, slot.rest, more)
        } else {
            shares
        }
    } else {
        shares
    }
}

/// What is parsed conforms to the grammar.
pub proof fn law_parsed_instructions_conform<E>(cx: Context, at: Cursor)
    requires
        read_word(cx.bytes, at).result matches Ok(word) ==> (cx.grammar.instruction(
            opcode(word),
        ) matches Some(instruction) ==> results_come_first(instruction.operands@)),
    ensures
        read_inst::<E>(cx, at).result matches Ok(inst) ==> conforms(cx.grammar, cx.types, inst),
{
    reveal(read_inst);
    if let Ok(inst) = read_inst::<E>(cx, at).result {
        let first = read_word(cx.bytes, at);
        let word = first.result->Ok_0;
        let instruction = cx.grammar.instruction(opcode(word))->0;
        lemma_instruction_has_opcode(cx.grammar, opcode(word));
        let all = lemma_slots_conform::<E>(
            cx,
            instruction.operands@,
            0,
            empty_draft(),
            Cursor { offset: first.rest.offset, limit: Some((word_count(word) - 1) as nat) },
            Seq::empty(),
        );
        assert(may_end(instruction.operands@, all.len()));
    }
}

} // verus!
