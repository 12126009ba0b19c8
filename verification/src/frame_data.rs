//! Data kept for the frames of a transaction, and their results.

use vstd::prelude::*;

use crate::interpreter::{CallOutcome, CreateOutcome, Gas, InstructionResult, InterpreterResult};
use crate::primitives::Address;

verus! {

/// Call frame: it has a memory range where its output will be stored.
#[derive(Debug)]
pub struct CallFrame {
    pub return_memory_range: core::ops::Range<usize>,
}

/// Create frame: it has the address of the created contract.
#[derive(Debug)]
pub struct CreateFrame {
    pub created_address: Address,
}

/// EOF create frame.
#[derive(Debug)]
pub struct EOFCreateFrame {
    pub created_address: Address,
}

/// The data of a frame, by kind.
#[derive(Debug)]
pub enum FrameData {
    Call(CallFrame),
    Create(CreateFrame),
    EOFCreate(EOFCreateFrame),
}

/// The outcome of a frame, by kind.
#[derive(Debug)]
pub enum FrameResult {
    Call(CallOutcome),
    Create(CreateOutcome),
    EOFCreate(CreateOutcome),
}

/// The output of an execution.
#[derive(Clone, Debug)]
pub enum Output {
    /// The bytes a call returned.
    Call(Vec<u8>),
    /// The bytes a create returned, and the created address, if any.
    Create(Vec<u8>, Option<Address>),
}

impl FrameResult {
    /// The interpreter result inside.
    pub open spec fn spec_interpreter_result(self) -> InterpreterResult {
        match self {
            FrameResult::Call(outcome) => outcome.result,
            FrameResult::Create(outcome) => outcome.result,
            FrameResult::EOFCreate(outcome) => outcome.result,
        }
    }

    /// The same frame result with another interpreter result inside.
    pub open spec fn with_interpreter_result(self, result: InterpreterResult) -> FrameResult {
        match self {
            FrameResult::Call(outcome) => FrameResult::Call(CallOutcome { result, ..outcome }),
            FrameResult::Create(outcome) => FrameResult::Create(CreateOutcome { result, ..outcome }),
            FrameResult::EOFCreate(outcome) => FrameResult::EOFCreate(
                CreateOutcome { result, ..outcome },
            ),
        }
    }

    /// Casts the frame result to its interpreter result.
    pub fn into_interpreter_result(self) -> (result: InterpreterResult)
        ensures
            result == self.spec_interpreter_result(),
    {
        match self {
            FrameResult::Call(outcome) => outcome.result,
            FrameResult::Create(outcome) => outcome.result,
            FrameResult::EOFCreate(outcome) => outcome.result,
        }
    }

    /// The interpreter result.
    pub fn interpreter_result(&self) -> (result: &InterpreterResult)
        ensures
            *result == self.spec_interpreter_result(),
    {
        match self {
            FrameResult::Call(outcome) => &outcome.result,
            FrameResult::Create(outcome) => &outcome.result,
            FrameResult::EOFCreate(outcome) => &outcome.result,
        }
    }

    /// The interpreter result, to change in place.
    pub fn interpreter_result_mut(&mut self) -> (result: &mut InterpreterResult)
        ensures
            *result == old(self).spec_interpreter_result(),
            *final(self) == old(self).with_interpreter_result(*final(result)),
    {
        match self {
            FrameResult::Call(outcome) => &mut outcome.result,
            FrameResult::Create(outcome) => &mut outcome.result,
            FrameResult::EOFCreate(outcome) => &mut outcome.result,
        }
    }

    /// The gas accounting.
    pub fn gas(&self) -> (gas: &Gas)
        ensures
            *gas == self.spec_interpreter_result().gas,
    {
        &self.interpreter_result().gas
    }

    /// The gas accounting, to change in place.
    pub fn gas_mut(&mut self) -> (gas: &mut Gas)
        ensures
            *gas == old(self).spec_interpreter_result().gas,
            *final(self) == old(self).with_interpreter_result(
                InterpreterResult { gas: *final(gas), ..old(self).spec_interpreter_result() },
            ),
    {
        &mut self.interpreter_result_mut().gas
    }

    /// How execution stopped.
    pub fn instruction_result(&self) -> (result: InstructionResult)
        ensures
            result == self.spec_interpreter_result().result,
    {
        self.interpreter_result().result
    }

    /// The execution output: the returned bytes, with the created address
    /// for a create.
    pub fn output(&self) -> (output: Output)
        ensures
            match output {
                Output::Call(bytes) => self is Call && bytes@ == self.spec_interpreter_result().output@,
                Output::Create(bytes, address) => {
                    &&& bytes@ == self.spec_interpreter_result().output@
                    &&& match self {
                        FrameResult::Call(_) => false,
                        FrameResult::Create(outcome) => address == outcome.address,
                        FrameResult::EOFCreate(outcome) => address == outcome.address,
                    }
                },
            },
    {
        let source = &self.interpreter_result().output;
        let output = source.clone();
        assert(output@ =~= source@);
        match self {
            FrameResult::Create(outcome) => Output::Create(output, outcome.address),
            FrameResult::EOFCreate(outcome) => Output::Create(output, outcome.address),
            FrameResult::Call(_) => Output::Call(output),
        }
    }
}

impl FrameData {
    /// A create frame for the given address.
    pub fn new_create(created_address: Address) -> (frame: Self)
        ensures
            frame == FrameData::Create(CreateFrame { created_address }),
    {
        FrameData::Create(CreateFrame { created_address })
    }

    /// A call frame whose output goes to the given memory range.
    pub fn new_call(return_memory_range: core::ops::Range<usize>) -> (frame: Self)
        ensures
            frame == FrameData::Call(CallFrame { return_memory_range }),
    {
        FrameData::Call(CallFrame { return_memory_range })
    }

    /// Whether this is a call frame.
    pub fn is_call(&self) -> (call: bool)
        ensures
            call == (self is Call),
    {
        match self {
            FrameData::Call(_) => true,
            _ => false,
        }
    }

    /// Whether this is a create frame.
    pub fn is_create(&self) -> (create: bool)
        ensures
            create == (self is Create),
    {
        match self {
            FrameData::Create(_) => true,
            _ => false,
        }
    }

    /// The created address of a create frame; `None` for other frames.
    pub fn created_address(&self) -> (address: Option<Address>)
        ensures
            address == match self {
                FrameData::Create(frame) => Some(frame.created_address),
                _ => None,
            },
    {
        match self {
            FrameData::Create(create_frame) => Some(create_frame.created_address),
            _ => None,
        }
    }
}

} // verus!
