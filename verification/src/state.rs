//! How a parse ended.

use crate::decoder::DecodeError;
use crate::text::{append_decimal, decimal};
use vstd::prelude::*;
use vstd::string::StringExecFns;

verus! {

/// The text of an error of the decoder.
pub open spec fn decode_error_text(error: DecodeError) -> Seq<char> {
    match error {
        DecodeError::StreamExpected(offset) => "expected more bytes in the stream at offset "@
            + decimal(offset as nat),
        DecodeError::LimitReached(offset) => "reached word limit at offset "@ + decimal(
            offset as nat,
        ),
        DecodeError::DecodeStringFailed(offset) => "cannot decode string at offset "@ + decimal(
            offset as nat,
        ),
        DecodeError::EnumerantUnknown(offset, _, value) => "unknown enumerant "@ + decimal(
            value as nat,
        ) + " at offset "@ + decimal(offset as nat),
    }
}

impl DecodeError {
    /// Says what went wrong and where.
    pub fn message(&self) -> (text: String)
        ensures
            text@ == decode_error_text(*self),
    {
        match *self {
            DecodeError::StreamExpected(offset) => {
                let mut text: String = "expected more bytes in the stream at offset ".to_owned();
                append_decimal(&mut text, offset);
                text
            },
            DecodeError::LimitReached(offset) => {
                let mut text: String = "reached word limit at offset ".to_owned();
                append_decimal(&mut text, offset);
                text
            },
            DecodeError::DecodeStringFailed(offset) => {
                let mut text: String = "cannot decode string at offset ".to_owned();
                append_decimal(&mut text, offset);
                text
            },
            DecodeError::EnumerantUnknown(offset, _, value) => {
                let mut text: String = "unknown enumerant ".to_owned();
                append_decimal(&mut text, value as usize);
                text.append(" at offset ");
                append_decimal(&mut text, offset);
                text
            },
        }
    }
}

/// Parser state.
///
/// Most of the errors hold where they happened: the byte offset, starting from
/// 0, and the number of the instruction, starting from 1.
#[derive(Debug)]
pub enum State<E> {
    /// Parsing completed.
    Complete,
    /// The consumer asked to stop.
    ConsumerStopRequested,
    /// The consumer failed with this error.
    ConsumerError(E),
    /// The module header is incomplete.
    HeaderIncomplete(DecodeError),
    /// The module header is incorrect.
    HeaderIncorrect,
    /// The module is of the other endianness.
    EndiannessUnsupported,
    /// An instruction has a word count of zero: byte offset, instruction number.
    WordCountZero(usize, usize),
    /// An opcode is unknown: byte offset, instruction number, opcode.
    OpcodeUnknown(usize, usize, u16),
    /// Operands are missing: byte offset, instruction number.
    OperandExpected(usize, usize),
    /// There are too many operands: byte offset, instruction number.
    OperandExceeded(usize, usize),
    /// An operand could not be decoded.
    OperandError(DecodeError),
    /// A constant has a type of an unsupported width: byte offset, instruction
    /// number.
    TypeUnsupported(usize, usize),
    /// The operation of an `OpSpecConstantOp` is unknown: byte offset,
    /// instruction number.
    SpecConstantOpIntegerIncorrect(usize, usize),
}

/// The instruction number that a state holds.
pub open spec fn state_index<E>(state: State<E>) -> Option<usize> {
    match state {
        State::WordCountZero(_, index) => Some(index),
        State::OpcodeUnknown(_, index, _) => Some(index),
        State::OperandExpected(_, index) => Some(index),
        State::OperandExceeded(_, index) => Some(index),
        State::TypeUnsupported(_, index) => Some(index),
        State::SpecConstantOpIntegerIncorrect(_, index) => Some(index),
        _ => None,
    }
}

impl<E> From<DecodeError> for State<E> {
    fn from(error: DecodeError) -> (state: Self) {
        State::OperandError(error)
    }
}

impl<E> vstd::std_specs::convert::FromSpecImpl<DecodeError> for State<E> {
    open spec fn obeys_from_spec() -> bool {
        true
    }

    open spec fn from_spec(error: DecodeError) -> Self {
        State::OperandError(error)
    }
}

/// What is wrong with an instruction, with its number and a byte offset.
pub open spec fn located_text(what: Seq<char>, offset: usize, index: usize) -> Seq<char> {
    what + " for instruction #"@ + decimal(index as nat) + " at offset "@ + decimal(offset as nat)
}

/// Writes where an instruction failed behind what is wrong with it.
fn locate(what: &str, offset: usize, index: usize) -> (text: String)
    ensures
        text@ == located_text(what@, offset, index),
{
    let mut text: String = what.to_owned();
    text.append(" for instruction #");
    append_decimal(&mut text, index);
    text.append(" at offset ");
    append_decimal(&mut text, offset);
    text
}

impl<E> State<E> {
    /// The short description.
    pub open spec fn summary(&self) -> Seq<char> {
        match *self {
            State::Complete => "completed parsing"@,
            State::ConsumerStopRequested => "stop parsing requested by consumer"@,
            State::ConsumerError(_) => "consumer error"@,
            State::HeaderIncomplete(_) => "incomplete module header"@,
            State::HeaderIncorrect => "incorrect module header"@,
            State::EndiannessUnsupported => "unsupported endianness"@,
            State::WordCountZero(_, _) => "zero word count found"@,
            State::OpcodeUnknown(_, _, _) => "unknown opcode"@,
            State::OperandExpected(_, _) => "expected more operands"@,
            State::OperandExceeded(_, _) => "found extra operands"@,
            State::OperandError(_) => "operand decoding error"@,
            State::TypeUnsupported(_, _) => "unsupported type"@,
            State::SpecConstantOpIntegerIncorrect(_, _) => "incorrect SpecConstantOp Integer"@,
        }
    }

    /// The full message, where `cause` is the text of the consumer's error.
    pub open spec fn text(&self, cause: Seq<char>) -> Seq<char> {
        match *self {
            State::Complete => "completed parsing"@,
            State::ConsumerStopRequested => "stop parsing requested by consumer"@,
            State::ConsumerError(_) => "consumer error: "@ + cause,
            State::HeaderIncomplete(error) => "incomplete module header: "@ + decode_error_text(
                error,
            ),
            State::HeaderIncorrect => "incorrect module header"@,
            State::EndiannessUnsupported => "unsupported endianness"@,
            State::WordCountZero(offset, index) => located_text(
                "zero word count found"@,
                offset,
                index,
            ),
            State::OpcodeUnknown(offset, index, opcode) => located_text(
                "unknown opcode ("@ + decimal(opcode as nat) + ")"@,
                offset,
                index,
            ),
            State::OperandExpected(offset, index) => located_text(
                "expected more operands"@,
                offset,
                index,
            ),
            State::OperandExceeded(offset, index) => located_text(
                "found extra operands"@,
                offset,
                index,
            ),
            State::OperandError(error) => "operand decoding error: "@ + decode_error_text(error),
            State::TypeUnsupported(offset, index) => located_text(
                "unsupported type"@,
                offset,
                index,
            ),
            State::SpecConstantOpIntegerIncorrect(offset, index) => located_text(
                "incorrect SpecConstantOp number"@,
                offset,
                index,
            ),
        }
    }

    /// Describes the state in a few words.
    pub fn description(&self) -> (text: &'static str)
        ensures
            text@ == self.summary(),
    {
        match *self {
            State::Complete => "completed parsing",
            State::ConsumerStopRequested => "stop parsing requested by consumer",
            State::ConsumerError(_) => "consumer error",
            State::HeaderIncomplete(_) => "incomplete module header",
            State::HeaderIncorrect => "incorrect module header",
            State::EndiannessUnsupported => "unsupported endianness",
            State::WordCountZero(_, _) => "zero word count found",
            State::OpcodeUnknown(_, _, _) => "unknown opcode",
            State::OperandExpected(_, _) => "expected more operands",
            State::OperandExceeded(_, _) => "found extra operands",
            State::OperandError(_) => "operand decoding error",
            State::TypeUnsupported(_, _) => "unsupported type",
            State::SpecConstantOpIntegerIncorrect(_, _) => "incorrect SpecConstantOp Integer",
        }
    }

    /// Says what happened and where. `cause` is the text of the consumer's error,
    /// which only [`State::ConsumerError`] shows.
    pub fn message(&self, cause: &str) -> (text: String)
        ensures
            text@ == self.text(cause@),
    {
        match *self {
            State::Complete => "completed parsing".to_owned(),
            State::ConsumerStopRequested => "stop parsing requested by consumer".to_owned(),
            State::ConsumerError(_) => {
                let mut text: String = "consumer error: ".to_owned();
                text.append(cause);
                text
            },
            State::HeaderIncomplete(ref error) => {
                let mut text: String = "incomplete module header: ".to_owned();
                text.append(error.message().as_str());
                text
            },
            State::HeaderIncorrect => "incorrect module header".to_owned(),
            State::EndiannessUnsupported => "unsupported endianness".to_owned(),
            State::WordCountZero(offset, index) => locate("zero word count found", offset, index),
            State::OpcodeUnknown(offset, index, opcode) => {
                let mut what: String = "unknown opcode (".to_owned();
                append_decimal(&mut what, opcode as usize);
                what.append(")");
                locate(what.as_str(), offset, index)
            },
            State::OperandExpected(offset, index) => locate(
                "expected more operands",
                offset,
                index,
            ),
            State::OperandExceeded(offset, index) => locate("found extra operands", offset, index),
            State::OperandError(ref error) => {
                let mut text: String = "operand decoding error: ".to_owned();
                text.append(error.message().as_str());
                text
            },
            State::TypeUnsupported(offset, index) => locate("unsupported type", offset, index),
            State::SpecConstantOpIntegerIncorrect(offset, index) => locate(
                "incorrect SpecConstantOp number",
                offset,
                index,
            ),
        }
    }
}

} // verus!
