//! The memory representation of what a parser finds in a binary.

use crate::grammar::{Class, EnumKind};
use crate::spirv::Word;
use crate::version::{
    create_version_from_word, create_word_from_version, version_of_word, word_of_version,
};
use vstd::prelude::*;

verus! {

/// The header of a module: its version word and the bound on its ids.
#[derive(Clone, Copy, Debug, PartialEq, Eq, Structural)]
pub struct ModuleHeader {
    pub version: Word,
    pub bound: Word,
}

impl ModuleHeader {
    /// Makes a header with this bound on the ids and a version word of zero.
    pub fn new(bound: Word) -> (header: Self)
        ensures
            header == (ModuleHeader { version: 0, bound }),
    {
        ModuleHeader { version: 0, bound }
    }

    /// Sets the version.
    pub fn set_version(&mut self, major: u8, minor: u8)
        ensures
            *final(self) == (ModuleHeader {
                version: word_of_version(major, minor),
                bound: old(self).bound,
            }),
    {
        self.version = create_word_from_version(major, minor);
    }

    /// The major and the minor version.
    pub fn version(&self) -> (version: (u8, u8))
        ensures
            version == version_of_word(self.version),
    {
        create_version_from_word(self.version)
    }
}

/// A concrete operand.
#[derive(Debug, PartialEq, Eq)]
pub enum Operand {
    IdRef(Word),
    IdScope(Word),
    IdMemorySemantics(Word),
    LiteralInt32(u32),
    LiteralInt64(u64),
    /// The bits of a 32-bit floating-point number.
    LiteralFloat32(u32),
    /// The bits of a 64-bit floating-point number.
    LiteralFloat64(u64),
    LiteralExtInstInteger(u32),
    /// The opcode of the operation of an `OpSpecConstantOp`.
    LiteralSpecConstantOpInteger(u16),
    LiteralString(String),
    /// A value of an enumeration.
    Enumerant(EnumKind, Word),
}

/// An operand, with a string taken as its characters.
pub enum OperandView {
    IdRef(Word),
    IdScope(Word),
    IdMemorySemantics(Word),
    LiteralInt32(u32),
    LiteralInt64(u64),
    LiteralFloat32(u32),
    LiteralFloat64(u64),
    LiteralExtInstInteger(u32),
    LiteralSpecConstantOpInteger(u16),
    LiteralString(Seq<char>),
    Enumerant(EnumKind, Word),
}

impl View for Operand {
    type V = OperandView;

    open spec fn view(&self) -> OperandView {
        match *self {
            Operand::IdRef(id) => OperandView::IdRef(id),
            Operand::IdScope(id) => OperandView::IdScope(id),
            Operand::IdMemorySemantics(id) => OperandView::IdMemorySemantics(id),
            Operand::LiteralInt32(value) => OperandView::LiteralInt32(value),
            Operand::LiteralInt64(value) => OperandView::LiteralInt64(value),
            Operand::LiteralFloat32(bits) => OperandView::LiteralFloat32(bits),
            Operand::LiteralFloat64(bits) => OperandView::LiteralFloat64(bits),
            Operand::LiteralExtInstInteger(number) => OperandView::LiteralExtInstInteger(number),
            Operand::LiteralSpecConstantOpInteger(opcode) => {
                OperandView::LiteralSpecConstantOpInteger(opcode)
            },
            Operand::LiteralString(text) => OperandView::LiteralString(text@),
            Operand::Enumerant(kind, value) => OperandView::Enumerant(kind, value),
        }
    }
}

/// The views of some operands.
pub open spec fn operand_views(operands: Seq<Operand>) -> Seq<OperandView> {
    operands.map_values(|operand: Operand| operand@)
}

/// An instruction of a module.
#[derive(Debug, PartialEq, Eq)]
pub struct Instruction {
    pub class: Class,
    pub result_type: Option<Word>,
    pub result_id: Option<Word>,
    /// The operands but for the result type and the result id.
    pub operands: Vec<Operand>,
}

/// An instruction, with its operands taken by their views.
pub struct InstructionView {
    pub class: Class,
    pub result_type: Option<Word>,
    pub result_id: Option<Word>,
    pub operands: Seq<OperandView>,
}

impl View for Instruction {
    type V = InstructionView;

    open spec fn view(&self) -> InstructionView {
        InstructionView {
            class: self.class,
            result_type: self.result_type,
            result_id: self.result_id,
            operands: operand_views(self.operands@),
        }
    }
}

impl Instruction {
    /// Makes an instruction.
    pub fn new(
        class: Class,
        result_type: Option<Word>,
        result_id: Option<Word>,
        operands: Vec<Operand>,
    ) -> (instruction: Self)
        ensures
            instruction == (Instruction { class, result_type, result_id, operands }),
    {
        Instruction { class, result_type, result_id, operands }
    }
}

} // verus!
