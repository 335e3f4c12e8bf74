//! Who receives what a parser finds.

use crate::mr::{Instruction, InstructionView, ModuleHeader};
use crate::state::State;
use vstd::prelude::*;

verus! {

/// Orders that a consumer sends to the parser after each call.
#[derive(Debug)]
pub enum Action<E> {
    /// Continue the parsing.
    Continue,
    /// Stop the parsing normally.
    Stop,
    /// Stop the parsing with this error.
    Error(E),
}

/// What an order means for the parse: to go on, or to end in a state.
pub open spec fn order_result<E>(order: Action<E>) -> Result<(), State<E>> {
    match order {
        Action::Continue => Ok(()),
        Action::Stop => Err(State::ConsumerStopRequested),
        Action::Error(error) => Err(State::ConsumerError(error)),
    }
}

impl<E> Action<E> {
    /// Carries out the order: goes on, or gives the state in which to end.
    pub fn consume(self) -> (result: Result<(), State<E>>)
        ensures
            result == order_result(self),
    {
        match self {
            Action::Continue => Ok(()),
            Action::Stop => Err(State::ConsumerStopRequested),
            Action::Error(error) => Err(State::ConsumerError(error)),
        }
    }
}

/// What a consumer can be told.
pub enum Event {
    Initialize,
    Header(ModuleHeader),
    Instruction(InstructionView),
    Finalize,
}

/// Something that a consumer was told, and the order that it gave.
pub struct Call<E> {
    pub event: Event,
    pub order: Action<E>,
}

/// The binary consumer trait.
///
/// The parser calls `initialize` before parsing the binary, and `finalize` after
/// successfully parsing the whole of it. After successfully parsing the module
/// header, it calls `consume_header`; after successfully parsing an instruction,
/// `consume_instruction`.
///
/// The consumer controls the parsing by the [`Action`] that it answers with.
pub trait Consumer: Sized {
    /// What can go wrong in the consumer.
    type Error;

    /// What a consumer promises of its answers: whether, told of an event while it
    /// is `before`, it may answer with an order and be `after`.
    ///
    /// A consumer that says nothing here promises nothing.
    open spec fn answers(
        before: Self,
        event: Event,
        order: Action<Self::Error>,
        after: Self,
    ) -> bool {
        true
    }

    /// Initializes the consumer.
    fn initialize(&mut self) -> (order: Action<Self::Error>)
        ensures
            Self::answers(*old(self), Event::Initialize, order, *final(self)),
    ;

    /// Finalizes the consumer.
    fn finalize(&mut self) -> (order: Action<Self::Error>)
        ensures
            Self::answers(*old(self), Event::Finalize, order, *final(self)),
    ;

    /// Consumes the module header.
    fn consume_header(&mut self, header: ModuleHeader) -> (order: Action<Self::Error>)
        ensures
            Self::answers(*old(self), Event::Header(header), order, *final(self)),
    ;

    /// Consumes an instruction.
    fn consume_instruction(&mut self, inst: Instruction) -> (order: Action<Self::Error>)
        ensures
            Self::answers(*old(self), Event::Instruction(inst@), order, *final(self)),
    ;
}

} // verus!
