//! Which ids stand for numbers, and of which type.

use crate::mr::{Instruction, InstructionView, Operand, OperandView};
use crate::spirv::{Word, OP_TYPE_FLOAT, OP_TYPE_INT};
use std::collections::HashMap;
use vstd::prelude::*;

verus! {

/// A numeric type.
#[derive(Clone, Copy, Debug, PartialEq, Eq, Structural)]
pub enum Type {
    /// An integer of this many bits, and whether it is signed.
    Integer(u32, bool),
    /// A floating-point number of this many bits.
    Float(u32),
}

/// The numeric type that an instruction gives to its result id: the one it
/// declares, or else the one that its result type stands for.
pub open spec fn type_of_result(types: Map<Word, Type>, inst: InstructionView) -> Option<Type> {
    if inst.class.opcode == OP_TYPE_INT {
        if inst.operands.len() >= 2 {
            match (inst.operands[0], inst.operands[1]) {
                (OperandView::LiteralInt32(width), OperandView::LiteralInt32(sign)) => Some(
                    Type::Integer(width, sign == 1),
                ),
                _ => None,
            }
        } else {
            None
        }
    } else if inst.class.opcode == OP_TYPE_FLOAT {
        if inst.operands.len() >= 1 {
            match inst.operands[0] {
                OperandView::LiteralInt32(width) => Some(Type::Float(width)),
                _ => None,
            }
        } else {
            None
        }
    } else {
        match inst.result_type {
            Some(id) => if types.contains_key(id) {
                Some(types[id])
            } else {
                None
            },
            None => None,
        }
    }
}

/// The types that are known once an instruction has been seen.
pub open spec fn types_after(types: Map<Word, Type>, inst: InstructionView) -> Map<Word, Type> {
    match (inst.result_id, type_of_result(types, inst)) {
        (Some(id), Some(found)) => types.insert(id, found),
        _ => types,
    }
}

/// The numeric types of the ids that have been defined so far.
///
/// An id whose type is not numeric, or not known, is passed over.
pub struct TypeTracker {
    types: HashMap<Word, Type>,
}

impl View for TypeTracker {
    type V = Map<Word, Type>;

    closed spec fn view(&self) -> Map<Word, Type> {
        self.types@
    }
}

impl TypeTracker {
    /// Makes a tracker that knows no type.
    pub fn new() -> (tracker: Self)
        ensures
            tracker@ == Map::<Word, Type>::empty(),
    {
        broadcast use vstd::std_specs::hash::group_hash_axioms;

        TypeTracker { types: HashMap::new() }
    }

    /// Takes note of the type that an instruction gives to its result id.
    pub fn track(&mut self, inst: &Instruction)
        ensures
            final(self)@ == types_after(old(self)@, inst@),
    {
        broadcast use vstd::std_specs::hash::group_hash_axioms;

        let id: Word = match inst.result_id {
            Some(id) => id,
            None => return,
        };
        let mut found: Option<Type> = None;
        if inst.class.opcode == OP_TYPE_INT {
            if inst.operands.len() >= 2 {
                assert(inst@.operands[0] == inst.operands@[0]@);
                assert(inst@.operands[1] == inst.operands@[1]@);
                match (&inst.operands[0], &inst.operands[1]) {
                    (Operand::LiteralInt32(width), Operand::LiteralInt32(sign)) => {
                        found = Some(Type::Integer(*width, *sign == 1));
                    },
                    _ => {},
                }
            }
        } else if inst.class.opcode == OP_TYPE_FLOAT {
            if inst.operands.len() >= 1 {
                assert(inst@.operands[0] == inst.operands@[0]@);
                match &inst.operands[0] {
                    Operand::LiteralInt32(width) => {
                        found = Some(Type::Float(*width));
                    },
                    _ => {},
                }
            }
        } else {
            match inst.result_type {
                Some(type_id) => {
                    found = self.resolve(type_id);
                },
                None => {},
            }
        }
        assert(found == type_of_result(self@, inst@));
        match found {
            Some(found) => {
                self.types.insert(id, found);
            },
            None => {},
        }
    }

    /// Finds the numeric type of an id.
    pub fn resolve(&self, id: Word) -> (found: Option<Type>)
        ensures
            found == (if self@.contains_key(id) {
                Some(self@[id])
            } else {
                None
            }),
    {
        broadcast use vstd::std_specs::hash::group_hash_axioms;

        match self.types.get(&id) {
            Some(found) => Some(*found),
            None => None,
        }
    }
}

} // verus!
