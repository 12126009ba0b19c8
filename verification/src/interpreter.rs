//! The interpreter's results and the inputs of the frames it runs.

use vstd::prelude::*;

use crate::primitives::{Address, U256};

verus! {

/// How the interpreter stopped.
#[derive(Clone, Copy, Debug, PartialEq, Eq)]
pub enum InstructionResult {
    Continue,
    Stop,
    Return,
    SelfDestruct,
    ReturnContract,
    Revert,
    CallTooDeep,
    OutOfFunds,
    CreateInitCodeStartingEF00,
    InvalidEOFInitCode,
    InvalidExtDelegateCallTarget,
    CallOrCreate,
    OutOfGas,
    MemoryOOG,
    MemoryLimitOOG,
    PrecompileOOG,
    InvalidOperandOOG,
    ReentrancySentryOOG,
    OpcodeNotFound,
    CallNotAllowedInsideStatic,
    StateChangeDuringStaticCall,
    InvalidFEOpcode,
    InvalidJump,
    NotActivated,
    StackUnderflow,
    StackOverflow,
    OutOfOffset,
    CreateCollision,
    OverflowPayment,
    PrecompileError,
    NonceOverflow,
    CreateContractSizeLimit,
    CreateContractStartingWithEF,
    CreateInitCodeSizeLimit,
    FatalExternalError,
    ReturnContractInNonReturningEOF,
    EOFOpcodeDisabledInLegacy,
    SubRoutineStackOverflow,
    EofAuxDataOverflow,
    EofAuxDataTooSmall,
    InvalidEXTCALLTarget,
}

impl InstructionResult {
    /// A successful end of execution.
    pub open spec fn spec_is_ok(self) -> bool {
        ||| self is Continue
        ||| self is Stop
        ||| self is Return
        ||| self is SelfDestruct
        ||| self is ReturnContract
    }

    /// A revert: the state changes are undone but unspent gas is returned.
    pub open spec fn spec_is_revert(self) -> bool {
        ||| self is Revert
        ||| self is CallTooDeep
        ||| self is OutOfFunds
        ||| self is InvalidEOFInitCode
        ||| self is CreateInitCodeStartingEF00
        ||| self is InvalidExtDelegateCallTarget
    }

    /// Whether execution ended successfully.
    pub fn is_ok(self) -> (ok: bool)
        ensures
            ok == self.spec_is_ok(),
    {
        match self {
            InstructionResult::Continue | InstructionResult::Stop | InstructionResult::Return
            | InstructionResult::SelfDestruct | InstructionResult::ReturnContract => true,
            _ => false,
        }
    }

    /// Whether execution reverted.
    pub fn is_revert(self) -> (revert: bool)
        ensures
            revert == self.spec_is_revert(),
    {
        match self {
            InstructionResult::Revert | InstructionResult::CallTooDeep
            | InstructionResult::OutOfFunds | InstructionResult::InvalidEOFInitCode
            | InstructionResult::CreateInitCodeStartingEF00
            | InstructionResult::InvalidExtDelegateCallTarget => true,
            _ => false,
        }
    }

    /// Whether execution ended successfully or reverted.
    pub fn is_ok_or_revert(self) -> (ok_or_revert: bool)
        ensures
            ok_or_revert == (self.spec_is_ok() || self.spec_is_revert()),
    {
        self.is_ok() || self.is_revert()
    }
}

/// Gas accounting of a frame.
#[derive(Clone, Copy, Debug, PartialEq, Eq)]
pub struct Gas {
    /// The gas the frame may spend.
    pub limit: u64,
    /// The gas left.
    pub remaining: u64,
    /// The refund accumulated.
    pub refunded: i64,
}

impl Gas {
    /// Gas with the given limit, all of it spent and nothing refunded.
    pub fn new_spent(limit: u64) -> (gas: Gas)
        ensures
            gas == (Gas { limit, remaining: 0, refunded: 0 }),
    {
        Gas { limit, remaining: 0, refunded: 0 }
    }

    /// Gas with the given limit, none of it spent.
    pub fn new(limit: u64) -> (gas: Gas)
        ensures
            gas == (Gas { limit, remaining: limit, refunded: 0 }),
    {
        Gas { limit, remaining: limit, refunded: 0 }
    }

    /// The gas left.
    pub fn remaining(&self) -> (remaining: u64)
        ensures
            remaining == self.remaining,
    {
        self.remaining
    }

    /// The refund accumulated.
    pub fn refunded(&self) -> (refunded: i64)
        ensures
            refunded == self.refunded,
    {
        self.refunded
    }

    /// Gives back `returned` gas.
    pub fn erase_cost(&mut self, returned: u64)
        requires
            old(self).remaining + returned <= u64::MAX,
        ensures
            *final(self) == (Gas { remaining: (old(self).remaining + returned) as u64, ..*old(self) }),
    {
        self.remaining = self.remaining + returned;
    }

    /// Adds `refund` to the refund.
    pub fn record_refund(&mut self, refund: i64)
        requires
            i64::MIN <= old(self).refunded + refund <= i64::MAX,
        ensures
            *final(self) == (Gas { refunded: (old(self).refunded + refund) as i64, ..*old(self) }),
    {
        self.refunded = self.refunded + refund;
    }
}

/// What the interpreter returns for a frame.
#[derive(Clone, Debug)]
pub struct InterpreterResult {
    /// How execution stopped.
    pub result: InstructionResult,
    /// The returned bytes.
    pub output: Vec<u8>,
    /// The gas accounting.
    pub gas: Gas,
}

/// The outcome of a call frame.
#[derive(Debug)]
pub struct CallOutcome {
    pub result: InterpreterResult,
    /// Where in the caller's memory the output goes.
    pub memory_offset: core::ops::Range<usize>,
}

/// The outcome of a create frame.
#[derive(Clone, Debug)]
pub struct CreateOutcome {
    pub result: InterpreterResult,
    /// The address of the created contract, if any.
    pub address: Option<Address>,
}

/// How value goes along with a call.
#[derive(Clone, Copy, Debug, PartialEq, Eq)]
pub enum CallValue {
    /// The value is transferred to the callee.
    Transfer(U256),
    /// The callee only sees the value.
    Apparent(U256),
}

/// The kind of call.
#[derive(Clone, Copy, Debug, PartialEq, Eq)]
pub enum CallScheme {
    Call,
    CallCode,
    DelegateCall,
    StaticCall,
    ExtCall,
    ExtStaticCall,
    ExtDelegateCall,
}

/// How the address of a created contract is derived.
#[derive(Clone, Copy, Debug, PartialEq, Eq)]
pub enum CreateScheme {
    Create,
    Create2 { salt: U256 },
}

/// Inputs of a call frame.
#[derive(Debug)]
pub struct CallInputs {
    pub input: Vec<u8>,
    pub return_memory_offset: core::ops::Range<usize>,
    pub gas_limit: u64,
    pub bytecode_address: Address,
    pub target_address: Address,
    pub caller: Address,
    pub value: CallValue,
    pub scheme: CallScheme,
    pub is_static: bool,
    pub is_eof: bool,
}

/// Inputs of a create frame.
#[derive(Clone, Debug)]
pub struct CreateInputs {
    pub caller: Address,
    pub scheme: CreateScheme,
    pub value: U256,
    pub init_code: Vec<u8>,
    pub gas_limit: u64,
}

/// Where the initcode of an EOF create frame comes from.
#[derive(Clone, Debug)]
pub enum EOFCreateKind {
    /// A creation transaction: the initcode container and its input data.
    Tx { initdata: Vec<u8> },
}

/// Inputs of an EOF create frame.
#[derive(Clone, Debug)]
pub struct EOFCreateInputs {
    pub caller: Address,
    pub value: U256,
    pub gas_limit: u64,
    pub kind: EOFCreateKind,
}

impl EOFCreateInputs {
    /// The inputs of an EOF create frame.
    pub fn new(caller: Address, value: U256, gas_limit: u64, kind: EOFCreateKind) -> (inputs: Self)
        ensures
            inputs == (EOFCreateInputs { caller, value, gas_limit, kind }),
    {
        EOFCreateInputs { caller, value, gas_limit, kind }
    }
}

/// Inputs of a creation transaction that carries a note commitment.
#[derive(Clone, Debug)]
pub struct ExtendedInputs {
    /// Caller address of the EVM.
    pub caller: Address,
    /// The value to transfer.
    pub value: U256,
    /// The note commitment.
    pub commitment: Vec<u8>,
}

/// The first frame of a transaction.
#[derive(Debug)]
pub enum FrameInput {
    Call(Box<CallInputs>),
    Create(Box<CreateInputs>),
    EOFCreate(Box<EOFCreateInputs>),
    Extended(ExtendedInputs),
}

} // verus!

verus! {

/// The results that end execution successfully are exactly `Continue`,
/// `Stop`, `Return`, `SelfDestruct` and `ReturnContract`.
pub proof fn law_ok_results(result: InstructionResult)
    ensures
        result.spec_is_ok() <==> (result == InstructionResult::Continue || result
            == InstructionResult::Stop || result == InstructionResult::Return || result
            == InstructionResult::SelfDestruct || result == InstructionResult::ReturnContract),
{
}

/// The results that revert are exactly `Revert`, `CallTooDeep`,
/// `OutOfFunds`, `InvalidEOFInitCode`, `CreateInitCodeStartingEF00` and
/// `InvalidExtDelegateCallTarget`; every other result that is not a
/// success is an exceptional halt.
pub proof fn law_revert_results(result: InstructionResult)
    ensures
        result.spec_is_revert() <==> (result == InstructionResult::Revert || result
            == InstructionResult::CallTooDeep || result == InstructionResult::OutOfFunds || result
            == InstructionResult::InvalidEOFInitCode || result
            == InstructionResult::CreateInitCodeStartingEF00 || result
            == InstructionResult::InvalidExtDelegateCallTarget),
        !(result.spec_is_ok() && result.spec_is_revert()),
{
}

} // verus!
