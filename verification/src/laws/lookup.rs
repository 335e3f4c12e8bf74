//! What is found in a grammar is what it was made of.

use crate::grammar::{
    first_enumerant, first_kind, first_opcode, parameters_of_bits, union_of, BasicKind, EnumKind,
    Enumerant, Enumeration, Grammar, InstructionGrammar,
};
use crate::spirv::Word;
use vstd::prelude::*;

verus! {

proof fn lemma_opcode_found(instructions: Seq<InstructionGrammar>, code: u16, from: int)
    requires
        0 <= from <= instructions.len(),
    ensures
        match first_opcode(instructions, code, from) {
            Some(k) => {
                &&& from <= k < instructions.len()
                &&& instructions[k].class.opcode == code
                &&& forall|i: int|
                    from <= i < k ==> (#[trigger] instructions[i]).class.opcode != code
            },
            None => forall|i: int|
                from <= i < instructions.len() ==> (#[trigger] instructions[i]).class.opcode
                    != code,
        },
    decreases instructions.len() - from,
{
    if from < instructions.len() && instructions[from].class.opcode != code {
        lemma_opcode_found(instructions, code, from + 1);
    }
}

/// An opcode is unknown if and only if no instruction of the grammar has it;
/// otherwise the first one that has it is found.
pub proof fn law_every_opcode_is_found(grammar: Grammar, code: u16)
    ensures
        grammar.instruction(code) is None <==> forall|i: int|
            0 <= i < grammar.instructions().len() ==> (
            #[trigger] grammar.instructions()[i]).class.opcode != code,
        forall|k: int|
            0 <= k < grammar.instructions().len() && (
            #[trigger] grammar.instructions()[k]).class.opcode == code && (forall|i: int|
                0 <= i < k ==> (#[trigger] grammar.instructions()[i]).class.opcode != code)
                ==> grammar.instruction(code) == Some(grammar.instructions()[k]),
{
    lemma_opcode_found(grammar.instructions(), code, 0);
}

/// If no two instructions of the grammar have the same opcode, then each of them is
/// found by its own.
pub proof fn law_every_instruction_is_found(grammar: Grammar, k: int)
    requires
        0 <= k < grammar.instructions().len(),
        forall|i: int, j: int|
            0 <= i < j < grammar.instructions().len() ==> (
            #[trigger] grammar.instructions()[i]).class.opcode != (
            #[trigger] grammar.instructions()[j]).class.opcode,
    ensures
        grammar.instruction(grammar.instructions()[k].class.opcode) == Some(
            grammar.instructions()[k],
        ),
{
    law_every_opcode_is_found(grammar, grammar.instructions()[k].class.opcode);
}

proof fn lemma_kind_found(enumerations: Seq<Enumeration>, kind: EnumKind, from: int)
    requires
        0 <= from <= enumerations.len(),
    ensures
        match first_kind(enumerations, kind, from) {
            Some(k) => {
                &&& from <= k < enumerations.len()
                &&& enumerations[k].kind == kind
                &&& forall|i: int| from <= i < k ==> (#[trigger] enumerations[i]).kind != kind
            },
            None => forall|i: int|
                from <= i < enumerations.len() ==> (#[trigger] enumerations[i]).kind != kind,
        },
    decreases enumerations.len() - from,
{
    if from < enumerations.len() && enumerations[from].kind != kind {
        lemma_kind_found(enumerations, kind, from + 1);
    }
}

/// There is no enumeration of a kind if and only if none of the grammar is of it;
/// otherwise the first one of that kind is found.
pub proof fn law_every_enumeration_is_found(grammar: Grammar, kind: EnumKind)
    ensures
        grammar.enumeration(kind) is None <==> forall|i: int|
            0 <= i < grammar.enumerations().len() ==> (#[trigger] grammar.enumerations()[i]).kind
                != kind,
        forall|k: int|
            0 <= k < grammar.enumerations().len() && (#[trigger] grammar.enumerations()[k]).kind
                == kind && (forall|i: int|
                0 <= i < k ==> (#[trigger] grammar.enumerations()[i]).kind != kind)
                ==> grammar.enumeration(kind) == Some(grammar.enumerations()[k]),
{
    lemma_kind_found(grammar.enumerations(), kind, 0);
}

/// A context-dependent number is in order in an instruction if and only if that is
/// `OpConstant` (43) or `OpSpecConstant` (50), and the result type comes before it.
pub proof fn law_numbers_belong_to_constants(instruction: InstructionGrammar)
    ensures
        instruction.numbers_have_types() <==> forall|k: int|
            0 <= k < instruction.operands@.len() && (#[trigger] instruction.operands@[k]).kind
                is LiteralContextDependentNumber ==> {
                &&& instruction.class.opcode == 43 || instruction.class.opcode == 50
                &&& exists|j: int|
                    0 <= j < k && (#[trigger] instruction.operands@[j]).kind is IdResultType
            },
{
    let numbers = instruction.numbers_have_types();
    assert(numbers <==> forall|k: int|
        0 <= k < instruction.operands@.len() && (#[trigger] instruction.operands@[k]).kind
            is LiteralContextDependentNumber ==> {
            &&& instruction.class.opcode == 43 || instruction.class.opcode == 50
            &&& instruction.has_result_type_before(k)
        });
    assert forall|k: int| instruction.has_result_type_before(k) <==> exists|j: int|
        0 <= j < k && (#[trigger] instruction.operands@[j]).kind is IdResultType by {}
}

proof fn lemma_enumerant_found(enumerants: Seq<Enumerant>, value: Word, from: int)
    requires
        0 <= from <= enumerants.len(),
    ensures
        match first_enumerant(enumerants, value, from) {
            Some(k) => {
                &&& from <= k < enumerants.len()
                &&& enumerants[k].value == value
                &&& forall|i: int| from <= i < k ==> (#[trigger] enumerants[i]).value != value
            },
            None => forall|i: int|
                from <= i < enumerants.len() ==> (#[trigger] enumerants[i]).value != value,
        },
    decreases enumerants.len() - from,
{
    if from < enumerants.len() && enumerants[from].value != value {
        lemma_enumerant_found(enumerants, value, from + 1);
    }
}

/// Where the values of an enumeration exclude each other, a value is known if and
/// only if one of them is that value.
pub proof fn law_values_are_known(enumeration: Enumeration, value: Word)
    requires
        enumeration.category is Value,
    ensures
        enumeration.knows(value) <==> exists|k: int|
            0 <= k < enumeration.enumerants@.len() && (#[trigger] enumeration.enumerants@[k]).value
                == value,
{
    lemma_enumerant_found(enumeration.enumerants@, value, 0);
}

/// Where the values of an enumeration exclude each other, a value brings along the
/// whole list of parameters of the first enumerant that has it, as many as there
/// are and each in its place; a value that is not known brings along none.
pub proof fn law_values_bring_all_their_parameters(enumeration: Enumeration, k: int)
    requires
        enumeration.category is Value,
        0 <= k < enumeration.enumerants@.len(),
        forall|i: int|
            0 <= i < k ==> (#[trigger] enumeration.enumerants@[i]).value
                != enumeration.enumerants@[k].value,
    ensures
        ({
            let enumerant = enumeration.enumerants@[k];
            let kinds = enumeration.parameters(enumerant.value);
            &&& kinds.len() == enumerant.parameters@.len()
            &&& forall|i: int|
                0 <= i < enumerant.parameters@.len() ==> #[trigger] kinds[i]
                    == enumerant.parameters@[i]
        }),
        forall|value: Word|
            (forall|i: int|
                0 <= i < enumeration.enumerants@.len() ==> (
                #[trigger] enumeration.enumerants@[i]).value != value)
                ==> #[trigger] enumeration.parameters(value).len() == 0,
{
    lemma_enumerant_found(enumeration.enumerants@, enumeration.enumerants@[k].value, 0);
    assert forall|value: Word|
        (forall|i: int|
            0 <= i < enumeration.enumerants@.len() ==> (
            #[trigger] enumeration.enumerants@[i]).value
                != value) implies #[trigger] enumeration.parameters(value).len() == 0 by {
        lemma_enumerant_found(enumeration.enumerants@, value, 0);
    }
}

/// Whether a word has a bit, counted from the least significant one.
pub open spec fn has_bit(word: Word, b: u32) -> bool {
    (word >> b) & 1 == 1
}

/// Whether one of some enumerants has a bit.
pub open spec fn one_has_bit(enumerants: Seq<Enumerant>, b: u32) -> bool {
    exists|i: int| 0 <= i < enumerants.len() && has_bit((#[trigger] enumerants[i]).value, b)
}

proof fn lemma_union_bits(enumerants: Seq<Enumerant>, b: u32)
    requires
        b < 32,
    ensures
        has_bit(union_of(enumerants), b) <==> one_has_bit(enumerants, b),
    decreases enumerants.len(),
{
    if enumerants.len() == 0 {
        assert((0u32 >> b) & 1 == 0) by (bit_vector)
            requires
                b < 32,
        ;
    } else {
        let shorter = enumerants.drop_last();
        let x = union_of(shorter);
        let y = enumerants.last().value;
        lemma_union_bits(shorter, b);
        assert((((x | y) >> b) & 1 == 1) <==> ((x >> b) & 1 == 1 || (y >> b) & 1 == 1))
            by (bit_vector)
            requires
                b < 32,
        ;
        if one_has_bit(shorter, b) {
            let i = choose|i: int|
                0 <= i < shorter.len() && has_bit((#[trigger] shorter[i]).value, b);
            assert(has_bit(enumerants[i].value, b));
        }
        if has_bit(y, b) {
            assert(has_bit(enumerants[enumerants.len() - 1].value, b));
        }
        if one_has_bit(enumerants, b) {
            let i = choose|i: int|
                0 <= i < enumerants.len() && has_bit((#[trigger] enumerants[i]).value, b);
            if i < shorter.len() {
                assert(has_bit(shorter[i].value, b));
            }
        }
    }
}

/// A word other than zero has a bit.
proof fn lemma_some_bit(x: Word) -> (b: u32)
    ensures
        x != 0 ==> b < 32 && has_bit(x, b),
    decreases x,
{
    if x == 0 || x & 1 == 1 {
        assert(x & 1 == 1 ==> (x >> 0u32) & 1 == 1) by (bit_vector);
        0
    } else {
        let half = x >> 1u32;
        assert(half < x && half != 0) by (bit_vector)
            requires
                x != 0,
                x & 1 != 1,
                half == x >> 1u32,
        ;
        let b = lemma_some_bit(half);
        let next = (b + 1) as u32;
        assert(next < 32 && (x >> next) & 1 == 1) by (bit_vector)
            requires
                half == x >> 1u32,
                b < 32,
                (half >> b) & 1 == 1,
                next == (b + 1) as u32,
        ;
        next
    }
}

/// Where the values of an enumeration are bits, a value is known if and only if each
/// of its bits is one that some enumerant has.
pub proof fn law_bits_are_known(enumeration: Enumeration, value: Word)
    requires
        enumeration.category is Bit,
    ensures
        enumeration.knows(value) <==> forall|b: u32|
            b < 32 && #[trigger] has_bit(value, b) ==> exists|i: int|
                0 <= i < enumeration.enumerants@.len() && has_bit(
                    (#[trigger] enumeration.enumerants@[i]).value,
                    b,
                ),
{
    let all = union_of(enumeration.enumerants@);
    if value & !all == 0 {
        assert forall|b: u32| b < 32 && #[trigger] has_bit(value, b) implies one_has_bit(
            enumeration.enumerants@,
            b,
        ) by {
            assert((all >> b) & 1 == 1) by (bit_vector)
                requires
                    value & !all == 0,
                    b < 32,
                    (value >> b) & 1 == 1,
            ;
            lemma_union_bits(enumeration.enumerants@, b);
        }
    } else {
        let rest = value & !all;
        let b = lemma_some_bit(rest);
        assert((value >> b) & 1 == 1 && (all >> b) & 1 != 1) by (bit_vector)
            requires
                rest == value & !all,
                b < 32,
                (rest >> b) & 1 == 1,
        ;
        lemma_union_bits(enumeration.enumerants@, b);
        assert(has_bit(value, b) && !one_has_bit(enumeration.enumerants@, b));
    }
}

/// Where the values of an enumeration are bits, zero is known, the value of every
/// enumerant is known, and so is the union of two known values.
pub proof fn law_unions_of_bits_are_known(
    enumeration: Enumeration,
    k: int,
    first: Word,
    second: Word,
)
    requires
        enumeration.category is Bit,
        enumeration.knows(first),
        enumeration.knows(second),
    ensures
        enumeration.knows(0),
        0 <= k < enumeration.enumerants@.len() ==> enumeration.knows(
            enumeration.enumerants@[k].value,
        ),
        enumeration.knows(first | second),
{
    law_bits_are_known(enumeration, 0);
    assert forall|b: u32| b < 32 implies !#[trigger] has_bit(0, b) by {
        assert((0u32 >> b) & 1 == 0) by (bit_vector)
            requires
                b < 32,
        ;
    }
    if 0 <= k < enumeration.enumerants@.len() {
        law_bits_are_known(enumeration, enumeration.enumerants@[k].value);
    }
    law_bits_are_known(enumeration, first);
    law_bits_are_known(enumeration, second);
    law_bits_are_known(enumeration, first | second);
    assert forall|b: u32| b < 32 && #[trigger] has_bit(first | second, b) implies has_bit(first, b)
        || has_bit(second, b) by {
        assert((((first | second) >> b) & 1 == 1) ==> ((first >> b) & 1 == 1 || (second >> b) & 1
            == 1)) by (bit_vector)
            requires
                b < 32,
        ;
    }
}

/// What an enumerant of bits adds to the parameters of a value: all of its own if the
/// value has all of its bits, and none otherwise.
pub open spec fn share_of_bits(enumerant: Enumerant, value: Word) -> Seq<BasicKind> {
    if forall|b: u32| b < 32 && has_bit(enumerant.value, b) ==> #[trigger] has_bit(value, b) {
        enumerant.parameters@
    } else {
        Seq::empty()
    }
}

proof fn lemma_covered(value: Word, part: Word)
    ensures
        value & part == part <==> forall|b: u32|
            b < 32 && has_bit(part, b) ==> #[trigger] has_bit(value, b),
{
    if value & part == part {
        assert forall|b: u32| b < 32 && has_bit(part, b) implies #[trigger] has_bit(value, b) by {
            assert((value >> b) & 1 == 1) by (bit_vector)
                requires
                    value & part == part,
                    b < 32,
                    (part >> b) & 1 == 1,
            ;
        }
    } else {
        let rest = part & !value;
        assert(rest != 0) by (bit_vector)
            requires
                rest == part & !value,
                value & part != part,
        ;
        let b = lemma_some_bit(rest);
        assert((part >> b) & 1 == 1 && (value >> b) & 1 != 1) by (bit_vector)
            requires
                rest == part & !value,
                b < 32,
                (rest >> b) & 1 == 1,
        ;
        assert(has_bit(part, b) && !has_bit(value, b));
    }
}

proof fn lemma_bits_parameters(enumerants: Seq<Enumerant>, value: Word)
    ensures
        parameters_of_bits(enumerants, value) == enumerants.map_values(
            |enumerant: Enumerant| share_of_bits(enumerant, value),
        ).flatten(),
    decreases enumerants.len(),
{
    let shares = enumerants.map_values(|enumerant: Enumerant| share_of_bits(enumerant, value));
    if enumerants.len() == 0 {
        assert(shares =~= Seq::empty());
    } else {
        let shorter = enumerants.drop_last();
        let before = shorter.map_values(|enumerant: Enumerant| share_of_bits(enumerant, value));
        lemma_bits_parameters(shorter, value);
        lemma_covered(value, enumerants.last().value);
        assert(shares =~= before.push(share_of_bits(enumerants.last(), value)));
        before.lemma_flatten_push(share_of_bits(enumerants.last(), value));
        assert(parameters_of_bits(enumerants, value) =~= before.flatten() + share_of_bits(
            enumerants.last(),
            value,
        ));
    }
}

/// Where the values of an enumeration are bits, a value brings along the whole lists
/// of parameters of those enumerants all of whose bits it has, in the order of the
/// enumerants, and nothing else.
pub proof fn law_bits_bring_all_their_parameters(enumeration: Enumeration, value: Word)
    requires
        enumeration.category is Bit,
    ensures
        enumeration.parameters(value) == enumeration.enumerants@.map_values(
            |enumerant: Enumerant| share_of_bits(enumerant, value),
        ).flatten(),
{
    lemma_bits_parameters(enumeration.enumerants@, value);
}

} // verus!
