//! What is said of how a parse ended.

use crate::consumer::{order_result, Action};
use crate::decoder::DecodeError;
use crate::grammar::EnumKind;
use crate::spirv::Word;
use crate::state::{decode_error_text, State};
use crate::text::{decimal, digit};
use vstd::prelude::*;
use vstd::std_specs::convert::FromSpec;

verus! {

/// The number that some decimal digits stand for.
pub open spec fn number_of_digits(digits: Seq<char>) -> int
    decreases digits.len(),
{
    if digits.len() == 0 {
        0
    } else {
        10 * number_of_digits(digits.drop_last()) + (digits.last() as int - '0' as int)
    }
}

/// A number is written as decimal digits that stand for it, without a zero in front
/// unless that is all.
pub proof fn law_numbers_are_written_in_decimal(n: nat)
    ensures
        decimal(n).len() >= 1,
        forall|i: int|
            0 <= i < decimal(n).len() ==> '0' as int <= (#[trigger] decimal(n)[i]) as int <= '9'
                as int,
        number_of_digits(decimal(n)) == n,
        decimal(n).len() > 1 ==> decimal(n)[0] != '0',
    decreases n,
{
    let digits = decimal(n);
    if n < 10 {
        assert(digits.drop_last() =~= Seq::empty());
        assert(number_of_digits(digits.drop_last()) == 0);
        assert(digit(n) as int == 0x30 + n);
    } else {
        let front = decimal(n / 10);
        law_numbers_are_written_in_decimal(n / 10);
        assert(digits.drop_last() =~= front);
        assert(digit(n % 10) as int == 0x30 + n % 10);
        assert(digits[0] == front[0]);
        if front.len() == 1 {
            assert(front.drop_last() =~= Seq::empty());
            assert(number_of_digits(front.drop_last()) == 0);
        }
    }
}

/// What an error of the decoder says: what is wrong, and the offset; of an unknown
/// enumerant also its value.
pub proof fn law_decode_errors_say_what_and_where(offset: usize, kind: EnumKind, value: Word)
    ensures
        decode_error_text(DecodeError::StreamExpected(offset))
            == "expected more bytes in the stream at offset "@ + decimal(offset as nat),
        decode_error_text(DecodeError::LimitReached(offset)) == "reached word limit at offset "@
            + decimal(offset as nat),
        decode_error_text(DecodeError::DecodeStringFailed(offset))
            == "cannot decode string at offset "@ + decimal(offset as nat),
        decode_error_text(DecodeError::EnumerantUnknown(offset, kind, value))
            == "unknown enumerant "@ + decimal(value as nat) + " at offset "@ + decimal(
            offset as nat,
        ),
{
}

/// What a state that has to do with an instruction says: what is wrong, the number of
/// the instruction, and the offset; of an unknown opcode also the opcode.
pub proof fn law_states_say_what_and_where<E>(
    offset: usize,
    index: usize,
    opcode: u16,
    cause: Seq<char>,
)
    ensures
        State::<E>::WordCountZero(offset, index).text(cause) == "zero word count found"@
            + " for instruction #"@ + decimal(index as nat) + " at offset "@ + decimal(
            offset as nat,
        ),
        State::<E>::OpcodeUnknown(offset, index, opcode).text(cause) == "unknown opcode ("@
            + decimal(opcode as nat) + ")"@ + " for instruction #"@ + decimal(index as nat)
            + " at offset "@ + decimal(offset as nat),
        State::<E>::OperandExpected(offset, index).text(cause) == "expected more operands"@
            + " for instruction #"@ + decimal(index as nat) + " at offset "@ + decimal(
            offset as nat,
        ),
        State::<E>::OperandExceeded(offset, index).text(cause) == "found extra operands"@
            + " for instruction #"@ + decimal(index as nat) + " at offset "@ + decimal(
            offset as nat,
        ),
        State::<E>::TypeUnsupported(offset, index).text(cause) == "unsupported type"@
            + " for instruction #"@ + decimal(index as nat) + " at offset "@ + decimal(
            offset as nat,
        ),
        State::<E>::SpecConstantOpIntegerIncorrect(offset, index).text(cause)
            == "incorrect SpecConstantOp number"@ + " for instruction #"@ + decimal(index as nat)
            + " at offset "@ + decimal(offset as nat),
{
}

/// What a state with a cause says: what failed, and the cause. Without a cause it says
/// no more than its description.
pub proof fn law_states_say_the_cause<E>(error: DecodeError, failure: E, cause: Seq<char>)
    ensures
        State::<E>::HeaderIncomplete(error).text(cause) == "incomplete module header: "@
            + decode_error_text(error),
        State::<E>::OperandError(error).text(cause) == "operand decoding error: "@
            + decode_error_text(error),
        State::<E>::ConsumerError(failure).text(cause) == "consumer error: "@ + cause,
        State::<E>::Complete.text(cause) == "completed parsing"@,
        State::<E>::ConsumerStopRequested.text(cause) == "stop parsing requested by consumer"@,
        State::<E>::HeaderIncorrect.text(cause) == "incorrect module header"@,
        State::<E>::EndiannessUnsupported.text(cause) == "unsupported endianness"@,
{
}

/// What a state is described as, whatever it holds.
pub proof fn law_states_are_described<E>(state: State<E>)
    ensures
        state is Complete ==> state.summary() == "completed parsing"@,
        state is ConsumerStopRequested ==> state.summary()
            == "stop parsing requested by consumer"@,
        state is ConsumerError ==> state.summary() == "consumer error"@,
        state is HeaderIncomplete ==> state.summary() == "incomplete module header"@,
        state is HeaderIncorrect ==> state.summary() == "incorrect module header"@,
        state is EndiannessUnsupported ==> state.summary() == "unsupported endianness"@,
        state is WordCountZero ==> state.summary() == "zero word count found"@,
        state is OpcodeUnknown ==> state.summary() == "unknown opcode"@,
        state is OperandExpected ==> state.summary() == "expected more operands"@,
        state is OperandExceeded ==> state.summary() == "found extra operands"@,
        state is OperandError ==> state.summary() == "operand decoding error"@,
        state is TypeUnsupported ==> state.summary() == "unsupported type"@,
        state is SpecConstantOpIntegerIncorrect ==> state.summary()
            == "incorrect SpecConstantOp Integer"@,
{
}

/// An error of the decoder, taken as a state, is an error of an operand.
pub proof fn law_decode_errors_are_operand_errors<E>(error: DecodeError)
    ensures
        State::<E>::from_spec(error) == State::<E>::OperandError(error),
{
}

/// An order to continue is no result; an order to stop is one, and an error is one that
/// holds it.
pub proof fn law_orders_decide<E>(error: E)
    ensures
        order_result(Action::<E>::Continue) == Ok::<(), State<E>>(()),
        order_result(Action::<E>::Stop) == Err::<(), State<E>>(State::ConsumerStopRequested),
        order_result(Action::Error(error)) == Err::<(), State<E>>(State::ConsumerError(error)),
{
}

} // verus!
