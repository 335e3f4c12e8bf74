//! The instruction set as data: which instructions there are, which operands
//! each takes, and which values an enumerated operand may have.
//!
//! A [`Grammar`] is what a parser knows of a SPIR-V version. It says of each
//! instruction which logical operands follow its opcode, and of each
//! enumeration which values exist and which further operands each of them
//! brings along.

use crate::spirv::{Word, OP_CONSTANT, OP_SPEC_CONSTANT};
use vstd::prelude::*;

verus! {

/// The enumerations that operands are drawn from.
#[derive(Clone, Copy, Debug, PartialEq, Eq, Structural)]
pub enum EnumKind {
    ImageOperands,
    FPFastMathMode,
    SelectionControl,
    LoopControl,
    FunctionControl,
    MemorySemantics,
    MemoryAccess,
    KernelProfilingInfo,
    SourceLanguage,
    ExecutionModel,
    AddressingModel,
    MemoryModel,
    ExecutionMode,
    StorageClass,
    Dim,
    SamplerAddressingMode,
    SamplerFilterMode,
    ImageFormat,
    ImageChannelOrder,
    ImageChannelDataType,
    FPRoundingMode,
    LinkageType,
    AccessQualifier,
    FunctionParameterAttribute,
    Decoration,
    BuiltIn,
    Scope,
    GroupOperation,
    KernelEnqueueFlags,
    Capability,
}

/// The kinds of logical operand that stand for one concrete operand, whatever
/// instruction they are found in.
#[derive(Clone, Copy, Debug, PartialEq, Eq, Structural)]
pub enum BasicKind {
    /// The id of something defined elsewhere.
    IdRef,
    /// The id of a scope.
    IdScope,
    /// The id of a memory semantics mask.
    IdMemorySemantics,
    /// A one-word integer.
    LiteralInteger,
    /// The number of an extended instruction.
    LiteralExtInstInteger,
    /// A nul-terminated UTF-8 string.
    LiteralString,
    /// A value of an enumeration.
    Enumerant(EnumKind),
}

/// The kinds of logical operand.
#[derive(Clone, Copy, Debug, PartialEq, Eq, Structural)]
pub enum OperandKind {
    /// The id of the type of the result.
    IdResultType,
    /// The id of the result.
    IdResult,
    /// A number whose width the result type decides.
    LiteralContextDependentNumber,
    /// The opcode of the operation that `OpSpecConstantOp` performs, and the
    /// ids that it is performed on.
    LiteralSpecConstantOpInteger,
    /// A one-word integer, then an id.
    PairLiteralIntegerIdRef,
    /// An id, then a one-word integer.
    PairIdRefLiteralInteger,
    /// Two ids.
    PairIdRefIdRef,
    /// One operand, and what its value brings along if it is an enumerant.
    Basic(BasicKind),
}

/// How often a logical operand occurs.
#[derive(Clone, Copy, Debug, PartialEq, Eq, Structural)]
pub enum OperandQuantifier {
    One,
    ZeroOrOne,
    ZeroOrMore,
}

/// A logical operand of an instruction.
#[derive(Clone, Copy, Debug, PartialEq, Eq, Structural)]
pub struct LogicalOperand {
    pub kind: OperandKind,
    pub quantifier: OperandQuantifier,
}

/// The name and the number of an instruction.
#[derive(Clone, Copy, Debug, PartialEq, Eq)]
pub struct Class {
    /// The name, without the leading `Op`.
    pub opname: &'static str,
    pub opcode: u16,
}

/// An instruction and its logical operands, in the order in which they follow
/// the opcode.
#[derive(Debug)]
pub struct InstructionGrammar {
    pub class: Class,
    pub operands: Vec<LogicalOperand>,
}

impl InstructionGrammar {
    /// Whether every context-dependent number belongs to an instruction that
    /// declares a constant and comes after the type of the result.
    pub open spec fn numbers_have_types(&self) -> bool {
        forall|k: int|
            0 <= k < self.operands@.len() && (#[trigger] self.operands@[k]).kind
                == OperandKind::LiteralContextDependentNumber ==> {
                &&& self.class.opcode == OP_CONSTANT || self.class.opcode == OP_SPEC_CONSTANT
                &&& self.has_result_type_before(k)
            }
    }

    /// Whether one of the first `k` operands is the type of the result.
    pub open spec fn has_result_type_before(&self, k: int) -> bool {
        exists|j: int|
            0 <= j < k && (#[trigger] self.operands@[j]).kind == OperandKind::IdResultType
    }

    /// Decides [`Self::numbers_have_types`].
    fn check_numbers(&self) -> (ok: bool)
        ensures
            ok == self.numbers_have_types(),
    {
        let constant: bool = self.class.opcode == OP_CONSTANT || self.class.opcode
            == OP_SPEC_CONSTANT;
        let mut typed: bool = false;
        let mut k: usize = 0;
        while k < self.operands.len()
            invariant
                k <= self.operands@.len(),
                constant == (self.class.opcode == OP_CONSTANT || self.class.opcode
                    == OP_SPEC_CONSTANT),
                typed == self.has_result_type_before(k as int),
                forall|i: int|
                    0 <= i < k && (#[trigger] self.operands@[i]).kind
                        == OperandKind::LiteralContextDependentNumber ==> constant
                        && self.has_result_type_before(i),
            decreases self.operands@.len() - k,
        {
            let kind: OperandKind = self.operands[k].kind;
            if kind == OperandKind::LiteralContextDependentNumber && !(constant && typed) {
                assert(self.operands@[k as int].kind == kind);
                return false;
            }
            if kind == OperandKind::IdResultType {
                assert(self.operands@[k as int].kind == OperandKind::IdResultType);
                typed = true;
            }
            k = k + 1;
        }
        true
    }
}

/// A value of an enumeration, and the operands that follow it where it is used.
#[derive(Debug)]
pub struct Enumerant {
    pub value: Word,
    pub parameters: Vec<BasicKind>,
}

/// Whether the values of an enumeration exclude each other or are bits.
#[derive(Clone, Copy, Debug, PartialEq, Eq, Structural)]
pub enum Category {
    /// An operand has exactly one of the values.
    Value,
    /// An operand is a union of the values.
    Bit,
}

/// An enumeration and its values.
#[derive(Debug)]
pub struct Enumeration {
    pub kind: EnumKind,
    pub category: Category,
    pub enumerants: Vec<Enumerant>,
}

/// The union of the values of some enumerants.
pub open spec fn union_of(enumerants: Seq<Enumerant>) -> Word
    decreases enumerants.len(),
{
    if enumerants.len() == 0 {
        0
    } else {
        union_of(enumerants.drop_last()) | enumerants.last().value
    }
}

/// The operands that `value` brings along: those of every enumerant whose bits
/// it holds, in the order of the enumerants.
pub open spec fn parameters_of_bits(enumerants: Seq<Enumerant>, value: Word) -> Seq<BasicKind>
    decreases enumerants.len(),
{
    if enumerants.len() == 0 {
        Seq::empty()
    } else {
        let earlier = parameters_of_bits(enumerants.drop_last(), value);
        let last = enumerants.last();
        if value & last.value == last.value {
            earlier + last.parameters@
        } else {
            earlier
        }
    }
}

/// The place of the first enumerant with this value at or after `from`.
pub open spec fn first_enumerant(enumerants: Seq<Enumerant>, value: Word, from: int) -> Option<int>
    decreases enumerants.len() - from,
{
    if from < 0 || from >= enumerants.len() {
        None
    } else if enumerants[from].value == value {
        Some(from)
    } else {
        first_enumerant(enumerants, value, from + 1)
    }
}

impl Enumeration {
    /// Whether an operand may have this value.
    pub open spec fn knows(&self, value: Word) -> bool {
        match self.category {
            Category::Value => first_enumerant(self.enumerants@, value, 0) is Some,
            Category::Bit => value & !union_of(self.enumerants@) == 0,
        }
    }

    /// The operands that follow an operand with this value.
    pub open spec fn parameters(&self, value: Word) -> Seq<BasicKind> {
        match self.category {
            Category::Value => match first_enumerant(self.enumerants@, value, 0) {
                Some(k) => self.enumerants@[k].parameters@,
                None => Seq::empty(),
            },
            Category::Bit => parameters_of_bits(self.enumerants@, value),
        }
    }

    /// Finds the first enumerant with this value.
    fn find_enumerant(&self, value: Word) -> (place: Option<usize>)
        ensures
            match place {
                Some(k) => k < self.enumerants@.len() && first_enumerant(
                    self.enumerants@,
                    value,
                    0,
                ) == Some(k as int),
                None => first_enumerant(self.enumerants@, value, 0) is None,
            },
    {
        let mut k: usize = 0;
        while k < self.enumerants.len()
            invariant
                k <= self.enumerants@.len(),
                first_enumerant(self.enumerants@, value, 0) == first_enumerant(
                    self.enumerants@,
                    value,
                    k as int,
                ),
            decreases self.enumerants@.len() - k,
        {
            if self.enumerants[k].value == value {
                return Some(k);
            }
            k = k + 1;
        }
        None
    }

    /// Whether an operand may have this value: one of the values, or a union of
    /// them.
    pub fn has_value(&self, value: Word) -> (known: bool)
        ensures
            known == self.knows(value),
    {
        match self.category {
            Category::Value => self.find_enumerant(value).is_some(),
            Category::Bit => {
                let mut union: Word = 0;
                let mut k: usize = 0;
                while k < self.enumerants.len()
                    invariant
                        k <= self.enumerants@.len(),
                        union == union_of(self.enumerants@.take(k as int)),
                    decreases self.enumerants@.len() - k,
                {
                    assert(self.enumerants@.take(k + 1).drop_last() =~= self.enumerants@.take(
                        k as int,
                    ));
                    union = union | self.enumerants[k].value;
                    k = k + 1;
                }
                assert(self.enumerants@.take(k as int) =~= self.enumerants@);
                value & !union == 0
            },
        }
    }

    /// Lists the operands that follow an operand with this value.
    pub fn parameters_for(&self, value: Word) -> (kinds: Vec<BasicKind>)
        ensures
            kinds@ == self.parameters(value),
    {
        let mut kinds: Vec<BasicKind> = Vec::new();
        match self.category {
            Category::Value => {
                if let Some(k) = self.find_enumerant(value) {
                    append_kinds(&mut kinds, &self.enumerants[k].parameters);
                }
            },
            Category::Bit => {
                let mut k: usize = 0;
                while k < self.enumerants.len()
                    invariant
                        k <= self.enumerants@.len(),
                        kinds@ == parameters_of_bits(self.enumerants@.take(k as int), value),
                    decreases self.enumerants@.len() - k,
                {
                    assert(self.enumerants@.take(k + 1).drop_last() =~= self.enumerants@.take(
                        k as int,
                    ));
                    if value & self.enumerants[k].value == self.enumerants[k].value {
                        append_kinds(&mut kinds, &self.enumerants[k].parameters);
                    }
                    k = k + 1;
                }
                assert(self.enumerants@.take(k as int) =~= self.enumerants@);
            },
        }
        kinds
    }
}

/// Puts the kinds in `more` behind those in `kinds`.
fn append_kinds(kinds: &mut Vec<BasicKind>, more: &Vec<BasicKind>)
    ensures
        final(kinds)@ == old(kinds)@ + more@,
{
    let ghost before = kinds@;
    let mut k: usize = 0;
    while k < more.len()
        invariant
            k <= more@.len(),
            kinds@ == before + more@.take(k as int),
        decreases more@.len() - k,
    {
        kinds.push(more[k]);
        assert(more@.take(k + 1) =~= more@.take(k as int).push(more@[k as int]));
        k = k + 1;
    }
    assert(more@.take(k as int) =~= more@);
}

/// The place of the first instruction with this opcode at or after `from`.
pub open spec fn first_opcode(
    instructions: Seq<InstructionGrammar>,
    opcode: u16,
    from: int,
) -> Option<int>
    decreases instructions.len() - from,
{
    if from < 0 || from >= instructions.len() {
        None
    } else if instructions[from].class.opcode == opcode {
        Some(from)
    } else {
        first_opcode(instructions, opcode, from + 1)
    }
}

/// The place of the first enumeration of this kind at or after `from`.
pub open spec fn first_kind(enumerations: Seq<Enumeration>, kind: EnumKind, from: int) -> Option<
    int,
>
    decreases enumerations.len() - from,
{
    if from < 0 || from >= enumerations.len() {
        None
    } else if enumerations[from].kind == kind {
        Some(from)
    } else {
        first_kind(enumerations, kind, from + 1)
    }
}

/// A set of instructions and enumerations.
///
/// In every grammar the context-dependent numbers have types: see
/// [`InstructionGrammar::numbers_have_types`].
#[derive(Debug)]
pub struct Grammar {
    instructions: Vec<InstructionGrammar>,
    enumerations: Vec<Enumeration>,
}

impl Grammar {
    #[verifier::type_invariant]
    closed spec fn inv(&self) -> bool {
        forall|k: int|
            0 <= k < self.instructions@.len() ==> (
            #[trigger] self.instructions@[k]).numbers_have_types()
    }

    /// The instructions.
    pub closed spec fn instructions(&self) -> Seq<InstructionGrammar> {
        self.instructions@
    }

    /// The enumerations.
    pub closed spec fn enumerations(&self) -> Seq<Enumeration> {
        self.enumerations@
    }

    /// The instruction with this opcode.
    pub open spec fn instruction(&self, opcode: u16) -> Option<InstructionGrammar> {
        match first_opcode(self.instructions(), opcode, 0) {
            Some(k) => Some(self.instructions()[k]),
            None => None,
        }
    }

    /// The enumeration of this kind.
    pub open spec fn enumeration(&self, kind: EnumKind) -> Option<Enumeration> {
        match first_kind(self.enumerations(), kind, 0) {
            Some(k) => Some(self.enumerations()[k]),
            None => None,
        }
    }

    /// Makes a grammar of these instructions and enumerations.
    ///
    /// Gives `None` if one of the instructions holds a context-dependent number
    /// and is neither `OpConstant` nor `OpSpecConstant`, or has no result type
    /// before that number.
    pub fn new(
        instructions: Vec<InstructionGrammar>,
        enumerations: Vec<Enumeration>,
    ) -> (grammar: Option<Self>)
        ensures
            grammar is Some <==> forall|k: int|
                0 <= k < instructions@.len() ==> (
                #[trigger] instructions@[k]).numbers_have_types(),
            grammar matches Some(grammar) ==> grammar.instructions() == instructions@
                && grammar.enumerations() == enumerations@,
    {
        let mut k: usize = 0;
        while k < instructions.len()
            invariant
                k <= instructions@.len(),
                forall|i: int|
                    0 <= i < k ==> (#[trigger] instructions@[i]).numbers_have_types(),
            decreases instructions@.len() - k,
        {
            if !instructions[k].check_numbers() {
                assert(!instructions@[k as int].numbers_have_types());
                return None;
            }
            k = k + 1;
        }
        Some(Grammar { instructions, enumerations })
    }

    /// Finds the instruction with this opcode.
    pub fn lookup_opcode(&self, opcode: u16) -> (found: Option<&InstructionGrammar>)
        ensures
            match found {
                Some(instruction) => self.instruction(opcode) == Some(*instruction)
                    && instruction.numbers_have_types(),
                None => self.instruction(opcode) is None,
            },
    {
        proof {
            use_type_invariant(self);
        }
        let mut k: usize = 0;
        while k < self.instructions.len()
            invariant
                self.inv(),
                k <= self.instructions@.len(),
                first_opcode(self.instructions@, opcode, 0) == first_opcode(
                    self.instructions@,
                    opcode,
                    k as int,
                ),
            decreases self.instructions@.len() - k,
        {
            if self.instructions[k].class.opcode == opcode {
                return Some(&self.instructions[k]);
            }
            k = k + 1;
        }
        None
    }

    /// Finds the enumeration of this kind.
    pub fn lookup_enumeration(&self, kind: EnumKind) -> (found: Option<&Enumeration>)
        ensures
            match found {
                Some(enumeration) => self.enumeration(kind) == Some(*enumeration),
                None => self.enumeration(kind) is None,
            },
    {
        let mut k: usize = 0;
        while k < self.enumerations.len()
            invariant
                k <= self.enumerations@.len(),
                first_kind(self.enumerations@, kind, 0) == first_kind(
                    self.enumerations@,
                    kind,
                    k as int,
                ),
            decreases self.enumerations@.len() - k,
        {
            if self.enumerations[k].kind == kind {
                return Some(&self.enumerations[k]);
            }
            k = k + 1;
        }
        None
    }
}

} // verus!
