//! Making and searching grammars, and keeping track of numeric types.

use rspirv::grammar::{
    BasicKind, Category, Class, EnumKind, Enumerant, Enumeration, Grammar, InstructionGrammar,
    LogicalOperand, OperandKind, OperandQuantifier,
};
use rspirv::mr::{Instruction, Operand};
use rspirv::tracker::{Type, TypeTracker};

fn one(kind: OperandKind) -> LogicalOperand {
    LogicalOperand { kind, quantifier: OperandQuantifier::One }
}

fn inst(opcode: u16, kinds: Vec<OperandKind>) -> InstructionGrammar {
    InstructionGrammar {
        class: Class { opname: "Some", opcode },
        operands: kinds.into_iter().map(one).collect(),
    }
}

const NUMBER: OperandKind = OperandKind::LiteralContextDependentNumber;
const RTYPE: OperandKind = OperandKind::IdResultType;
const RID: OperandKind = OperandKind::IdResult;

#[test]
fn numbers_belong_to_constants() {
    assert!(Grammar::new(vec![inst(43, vec![RTYPE, RID, NUMBER])], vec![]).is_some());
    assert!(Grammar::new(vec![inst(50, vec![RTYPE, RID, NUMBER])], vec![]).is_some());
    assert!(Grammar::new(vec![inst(44, vec![RTYPE, RID, NUMBER])], vec![]).is_none());
}

#[test]
fn numbers_come_after_the_result_type() {
    assert!(Grammar::new(vec![inst(43, vec![RID, NUMBER])], vec![]).is_none());
    assert!(Grammar::new(vec![inst(43, vec![NUMBER, RTYPE])], vec![]).is_none());
    assert!(Grammar::new(vec![inst(43, vec![RTYPE, NUMBER])], vec![]).is_some());
}

#[test]
fn one_wrong_instruction_is_enough() {
    let instructions = vec![inst(1, vec![RID]), inst(2, vec![RTYPE, NUMBER]), inst(3, vec![])];
    assert!(Grammar::new(instructions, vec![]).is_none());
    assert!(Grammar::new(vec![], vec![]).is_some());
}

#[test]
fn instructions_are_found_by_opcode() {
    let g = Grammar::new(vec![inst(5, vec![]), inst(7, vec![RID]), inst(7, vec![])], vec![]);
    let g = g.unwrap();
    assert!(g.lookup_opcode(6).is_none());
    assert_eq!(5, g.lookup_opcode(5).unwrap().class.opcode);
    // The first of two with the same opcode.
    assert_eq!(1, g.lookup_opcode(7).unwrap().operands.len());
}

fn bits() -> Enumeration {
    Enumeration {
        kind: EnumKind::ImageOperands,
        category: Category::Bit,
        enumerants: vec![
            Enumerant { value: 0, parameters: vec![] },
            Enumerant { value: 1, parameters: vec![BasicKind::IdRef] },
            Enumerant { value: 8, parameters: vec![BasicKind::LiteralInteger] },
            Enumerant { value: 2, parameters: vec![BasicKind::IdScope, BasicKind::IdRef] },
            Enumerant { value: 48, parameters: vec![BasicKind::LiteralString] },
        ],
    }
}

#[test]
fn enumerations_are_found_by_kind() {
    let g = Grammar::new(vec![], vec![bits()]).unwrap();
    assert_eq!(5, g.lookup_enumeration(EnumKind::ImageOperands).unwrap().enumerants.len());
    assert!(g.lookup_enumeration(EnumKind::Capability).is_none());
}

#[test]
fn bits_are_united() {
    let e = bits();
    for value in [0, 1, 2, 3, 8, 11, 16, 59] {
        assert!(e.has_value(value));
    }
    for value in [4, 64, 0x8000_0000, 5] {
        assert!(!e.has_value(value));
    }
}

#[test]
fn parameters_of_bits_come_in_the_order_of_the_enumerants() {
    let e = bits();
    assert_eq!(Vec::<BasicKind>::new(), e.parameters_for(0));
    assert_eq!(vec![BasicKind::IdRef], e.parameters_for(1));
    assert_eq!(
        vec![
            BasicKind::IdRef,
            BasicKind::LiteralInteger,
            BasicKind::IdScope,
            BasicKind::IdRef,
        ],
        e.parameters_for(11)
    );
    // An enumerant of two bits needs both.
    assert_eq!(Vec::<BasicKind>::new(), e.parameters_for(16));
    assert_eq!(vec![BasicKind::LiteralString], e.parameters_for(48));
}

#[test]
fn values_exclude_each_other() {
    let e = Enumeration {
        kind: EnumKind::Decoration,
        category: Category::Value,
        enumerants: vec![
            Enumerant { value: 1, parameters: vec![] },
            Enumerant { value: 2, parameters: vec![BasicKind::IdRef] },
            Enumerant { value: 2, parameters: vec![BasicKind::LiteralString] },
        ],
    };
    assert!(e.has_value(1));
    assert!(e.has_value(2));
    assert!(!e.has_value(3));
    assert!(!e.has_value(0));
    assert_eq!(Vec::<BasicKind>::new(), e.parameters_for(1));
    // The first of two with the same value.
    assert_eq!(vec![BasicKind::IdRef], e.parameters_for(2));
    assert_eq!(Vec::<BasicKind>::new(), e.parameters_for(3));
}

fn made(
    opcode: u16,
    rtype: Option<u32>,
    rid: Option<u32>,
    operands: Vec<Operand>,
) -> Instruction {
    Instruction::new(Class { opname: "Some", opcode }, rtype, rid, operands)
}

#[test]
fn types_are_declared() {
    let mut t = TypeTracker::new();
    assert_eq!(None, t.resolve(1));
    t.track(&made(21, None, Some(1), vec![Operand::LiteralInt32(32), Operand::LiteralInt32(1)]));
    t.track(&made(21, None, Some(2), vec![Operand::LiteralInt32(64), Operand::LiteralInt32(0)]));
    t.track(&made(22, None, Some(3), vec![Operand::LiteralInt32(16)]));
    assert_eq!(Some(Type::Integer(32, true)), t.resolve(1));
    assert_eq!(Some(Type::Integer(64, false)), t.resolve(2));
    assert_eq!(Some(Type::Float(16)), t.resolve(3));
    assert_eq!(None, t.resolve(4));
}

#[test]
fn results_have_the_type_of_their_result_type() {
    let mut t = TypeTracker::new();
    t.track(&made(22, None, Some(3), vec![Operand::LiteralInt32(64)]));
    t.track(&made(43, Some(3), Some(4), vec![]));
    t.track(&made(43, Some(9), Some(5), vec![]));
    t.track(&made(43, Some(3), None, vec![]));
    t.track(&made(43, None, Some(6), vec![]));
    assert_eq!(Some(Type::Float(64)), t.resolve(4));
    assert_eq!(None, t.resolve(5));
    assert_eq!(None, t.resolve(6));
}

#[test]
fn malformed_types_are_passed_over() {
    let mut t = TypeTracker::new();
    t.track(&made(21, None, Some(1), vec![Operand::LiteralInt32(32)]));
    t.track(&made(22, None, Some(2), vec![Operand::IdRef(1)]));
    t.track(&made(22, None, Some(3), vec![]));
    assert_eq!(None, t.resolve(1));
    assert_eq!(None, t.resolve(2));
    assert_eq!(None, t.resolve(3));
}
