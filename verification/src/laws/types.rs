//! Which numeric types are known.

use crate::mr::{InstructionView, OperandView};
use crate::spirv::Word;
use crate::tracker::{types_after, Type};
use vstd::prelude::*;

verus! {

/// An `OpTypeInt` (21) makes its result id an integer type of the width that its
/// first operand is, signed if its second operand is 1. No other id changes.
pub proof fn law_integer_types_are_declared(
    types: Map<Word, Type>,
    inst: InstructionView,
    id: Word,
    width: u32,
    sign: u32,
)
    requires
        inst.class.opcode == 21,
        inst.result_id == Some(id),
        inst.operands.len() >= 2,
        inst.operands[0] == OperandView::LiteralInt32(width),
        inst.operands[1] == OperandView::LiteralInt32(sign),
    ensures
        types_after(types, inst) == types.insert(id, Type::Integer(width, sign == 1)),
{
}

/// An `OpTypeFloat` (22) makes its result id a floating-point type of the width that
/// its first operand is. No other id changes.
pub proof fn law_float_types_are_declared(
    types: Map<Word, Type>,
    inst: InstructionView,
    id: Word,
    width: u32,
)
    requires
        inst.class.opcode == 22,
        inst.result_id == Some(id),
        inst.operands.len() >= 1,
        inst.operands[0] == OperandView::LiteralInt32(width),
    ensures
        types_after(types, inst) == types.insert(id, Type::Float(width)),
{
}

/// Any other instruction gives its result id the type that its result type stands
/// for, if that is known. No other id changes.
pub proof fn law_results_have_their_types(
    types: Map<Word, Type>,
    inst: InstructionView,
    id: Word,
    type_id: Word,
)
    requires
        inst.class.opcode != 21,
        inst.class.opcode != 22,
        inst.result_id == Some(id),
        inst.result_type == Some(type_id),
    ensures
        types_after(types, inst) == if types.contains_key(type_id) {
            types.insert(id, types[type_id])
        } else {
            types
        },
{
}

/// An instruction changes no type if it has no result id, or if it neither declares a
/// type nor has a result type, or if it declares one and its operands do not say
/// which.
pub proof fn law_types_are_left_alone(types: Map<Word, Type>, inst: InstructionView)
    requires
        ({
            ||| inst.result_id is None
            ||| inst.class.opcode != 21 && inst.class.opcode != 22 && inst.result_type is None
            ||| inst.class.opcode == 21 && !(inst.operands.len() >= 2
                && inst.operands[0] is LiteralInt32 && inst.operands[1] is LiteralInt32)
            ||| inst.class.opcode == 22 && !(inst.operands.len() >= 1
                && inst.operands[0] is LiteralInt32)
        }),
    ensures
        types_after(types, inst) == types,
{
}

/// An instruction says nothing of an id but its own result id.
pub proof fn law_other_types_are_kept(types: Map<Word, Type>, inst: InstructionView, id: Word)
    requires
        inst.result_id != Some(id),
    ensures
        types_after(types, inst).contains_key(id) == types.contains_key(id),
        types.contains_key(id) ==> types_after(types, inst)[id] == types[id],
{
}

/// The types that are known when the first `n` of some instructions have been seen.
pub open spec fn types_after_all(
    types: Map<Word, Type>,
    insts: Seq<InstructionView>,
    n: nat,
) -> Map<Word, Type>
    decreases n,
{
    if n == 0 {
        types
    } else {
        types_after(types_after_all(types, insts, (n - 1) as nat), insts[n - 1])
    }
}

/// An id that none of some instructions has as its result id is known after them as
/// it was before.
pub proof fn law_types_last(
    types: Map<Word, Type>,
    insts: Seq<InstructionView>,
    from: nat,
    n: nat,
    id: Word,
)
    requires
        from <= n,
        forall|m: int| from <= m < n ==> (#[trigger] insts[m]).result_id != Some(id),
    ensures
        types_after_all(types, insts, n).contains_key(id) == types_after_all(
            types,
            insts,
            from,
        ).contains_key(id),
        types_after_all(types, insts, n).contains_key(id) ==> types_after_all(types, insts, n)[id]
            == types_after_all(types, insts, from)[id],
    decreases n,
{
    if from < n {
        law_types_last(types, insts, from, (n - 1) as nat, id);
        law_other_types_are_kept(
            types_after_all(types, insts, (n - 1) as nat),
            insts[n - 1],
            id,
        );
    }
}

} // verus!
