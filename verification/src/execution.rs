//! The first frame of a transaction and the gas settlement of its last
//! frame.

use vstd::prelude::*;

use crate::frame_data::FrameResult;
use crate::interpreter::{
    CallInputs, CallScheme, CallValue, CreateInputs, CreateScheme, EOFCreateInputs, EOFCreateKind,
    ExtendedInputs, FrameInput, Gas, InstructionResult, InterpreterResult,
};
use crate::primitives::{starts_with, Address, SpecId, TxKind, U256, EOF_MAGIC_BYTES};

verus! {

/// Whether a creation transaction's input is an EOF initcode container
/// that the hardfork runs as such.
pub open spec fn is_eof_creation(spec: SpecId, input: Seq<u8>) -> bool {
    &&& spec.spec_rank() >= SpecId::OSAKA.spec_rank()
    &&& input.len() >= 2
    &&& input[0] == 0xEF
    &&& input[1] == 0x00
}

/// The first frame of a transaction sent by `caller` with `value`, of
/// kind `kind` and with input `input`, carrying `commitment` if any, under
/// hardfork `spec` with `gas_limit`:
/// - a call of the target with the input, transferring the value;
/// - for a creation carrying a note commitment, the extended inputs;
/// - for a creation whose input opens with the EOF magic from Osaka on, an
///   EOF creation with the input as initdata;
/// - otherwise a creation with the input as initcode.
pub fn create_init_frame(
    caller: Address,
    value: U256,
    kind: TxKind,
    input: &Vec<u8>,
    commitment: Option<&Vec<u8>>,
    spec: SpecId,
    gas_limit: u64,
) -> (frame: FrameInput)
    ensures
        match kind {
            TxKind::Call(target_address) => frame matches FrameInput::Call(inputs) && {
                &&& inputs.input@ == input@
                &&& inputs.gas_limit == gas_limit
                &&& inputs.target_address == target_address
                &&& inputs.bytecode_address == target_address
                &&& inputs.caller == caller
                &&& inputs.value == CallValue::Transfer(value)
                &&& inputs.scheme == CallScheme::Call
                &&& !inputs.is_static
                &&& !inputs.is_eof
                &&& inputs.return_memory_offset.start == 0
                &&& inputs.return_memory_offset.end == 0
            },
            TxKind::Create => match commitment {
                Some(commitment) => frame matches FrameInput::Extended(inputs) && {
                    &&& inputs.caller == caller
                    &&& inputs.value == value
                    &&& inputs.commitment@ == commitment@
                },
                None => if is_eof_creation(spec, input@) {
                    frame matches FrameInput::EOFCreate(inputs) && {
                        &&& inputs.caller == caller
                        &&& inputs.value == value
                        &&& inputs.gas_limit == gas_limit
                        &&& inputs.kind matches EOFCreateKind::Tx { initdata } && initdata@ == input@
                    }
                } else {
                    frame matches FrameInput::Create(inputs) && {
                        &&& inputs.caller == caller
                        &&& inputs.scheme == CreateScheme::Create
                        &&& inputs.value == value
                        &&& inputs.init_code@ == input@
                        &&& inputs.gas_limit == gas_limit
                    }
                },
            },
        },
{
    match kind {
        TxKind::Call(target_address) => {
            let source = input;
            let input = input.clone();
            assert(input@ =~= source@);
            FrameInput::Call(
                Box::new(
                    CallInputs {
                        input,
                        gas_limit,
                        target_address,
                        bytecode_address: target_address,
                        caller,
                        value: CallValue::Transfer(value),
                        scheme: CallScheme::Call,
                        is_static: false,
                        is_eof: false,
                        return_memory_offset: 0..0,
                    },
                ),
            )
        },
        TxKind::Create => {
            if let Some(commitment) = commitment {
                let source = commitment;
                let commitment = commitment.clone();
                assert(commitment@ =~= source@);
                FrameInput::Extended(ExtendedInputs { caller, value, commitment })
            } else {
                let source = input;
                let input = input.clone();
                assert(input@ =~= source@);
                // An input opening with the EOF magic is an EOF creation.
                let is_eof = spec.is_enabled_in(SpecId::OSAKA) && starts_with(
                    input.as_slice(),
                    &EOF_MAGIC_BYTES,
                );
                proof {
                    let magic = seq![0xEFu8, 0x00u8];
                    assert(EOF_MAGIC_BYTES@ =~= magic);
                    if input@.len() >= 2 {
                        let head = input@.take(2);
                        assert(head[0] == input@[0] && head[1] == input@[1]);
                        if input@[0] == 0xEF && input@[1] == 0x00 {
                            assert(head =~= magic);
                        }
                    }
                    assert(is_eof == is_eof_creation(spec, input@));
                }
                if is_eof {
                    FrameInput::EOFCreate(
                        Box::new(
                            EOFCreateInputs::new(
                                caller,
                                value,
                                gas_limit,
                                EOFCreateKind::Tx { initdata: input },
                            ),
                        ),
                    )
                } else {
                    FrameInput::Create(
                        Box::new(
                            CreateInputs {
                                caller,
                                scheme: CreateScheme::Create,
                                value,
                                init_code: input,
                                gas_limit,
                            },
                        ),
                    )
                }
            }
        },
    }
}

/// The gas of the last frame once the transaction settles it: the whole
/// transaction gas limit is spent; the gas the frame had left is given
/// back when it succeeded or reverted; its refund is kept only when it
/// succeeded.
pub open spec fn settled_gas(gas: Gas, result: InstructionResult, tx_gas_limit: u64) -> Gas {
    Gas {
        limit: tx_gas_limit,
        remaining: if result.spec_is_ok() || result.spec_is_revert() {
            gas.remaining
        } else {
            0
        },
        refunded: if result.spec_is_ok() {
            gas.refunded
        } else {
            0
        },
    }
}

/// Settles the gas of the last frame of a transaction with gas limit
/// `tx_gas_limit`; nothing else in the frame result changes.
pub fn last_frame_result(tx_gas_limit: u64, frame_result: &mut FrameResult)
    ensures
        *final(frame_result) == old(frame_result).with_interpreter_result(
            InterpreterResult {
                gas: settled_gas(
                    old(frame_result).spec_interpreter_result().gas,
                    old(frame_result).spec_interpreter_result().result,
                    tx_gas_limit,
                ),
                ..old(frame_result).spec_interpreter_result()
            },
        ),
{
    let instruction_result = frame_result.interpreter_result().result;
    let gas = frame_result.gas_mut();
    let remaining = gas.remaining();
    let refunded = gas.refunded();
    // Spend the gas limit. Gas is reimbursed when the transaction returns
    // successfully.
    *gas = Gas::new_spent(tx_gas_limit);
    if instruction_result.is_ok_or_revert() {
        gas.erase_cost(remaining);
    }
    if instruction_result.is_ok() {
        gas.record_refund(refunded);
    }
}

} // verus!

verus! {

/// Settling the last frame after a success (`Continue`, `Stop`, `Return`,
/// `SelfDestruct`, `ReturnContract`) spends the transaction's gas limit
/// but gives back the gas the frame had left and keeps its refund.
pub proof fn law_settle_success(gas: Gas, result: InstructionResult, tx_gas_limit: u64)
    requires
        result == InstructionResult::Continue || result == InstructionResult::Stop || result
            == InstructionResult::Return || result == InstructionResult::SelfDestruct || result
            == InstructionResult::ReturnContract,
    ensures
        settled_gas(gas, result, tx_gas_limit) == (Gas {
            limit: tx_gas_limit,
            remaining: gas.remaining,
            refunded: gas.refunded,
        }),
{
}

/// Settling the last frame after a revert (`Revert`, `CallTooDeep`,
/// `OutOfFunds`, `InvalidEOFInitCode`, `CreateInitCodeStartingEF00`,
/// `InvalidExtDelegateCallTarget`) gives back the gas the frame had left
/// and drops its refund.
pub proof fn law_settle_revert(gas: Gas, result: InstructionResult, tx_gas_limit: u64)
    requires
        result == InstructionResult::Revert || result == InstructionResult::CallTooDeep || result
            == InstructionResult::OutOfFunds || result == InstructionResult::InvalidEOFInitCode
            || result == InstructionResult::CreateInitCodeStartingEF00 || result
            == InstructionResult::InvalidExtDelegateCallTarget,
    ensures
        settled_gas(gas, result, tx_gas_limit) == (Gas {
            limit: tx_gas_limit,
            remaining: gas.remaining,
            refunded: 0,
        }),
{
}

/// Settling the last frame after any other result, an exceptional halt
/// such as `InvalidFEOpcode`, `OpcodeNotFound`, `InvalidJump`,
/// `StackUnderflow` or `OutOfGas`, spends the whole gas limit and keeps no
/// refund.
pub proof fn law_settle_halt(gas: Gas, result: InstructionResult, tx_gas_limit: u64)
    requires
        !(result == InstructionResult::Continue || result == InstructionResult::Stop || result
            == InstructionResult::Return || result == InstructionResult::SelfDestruct || result
            == InstructionResult::ReturnContract),
        !(result == InstructionResult::Revert || result == InstructionResult::CallTooDeep
            || result == InstructionResult::OutOfFunds || result
            == InstructionResult::InvalidEOFInitCode || result
            == InstructionResult::CreateInitCodeStartingEF00 || result
            == InstructionResult::InvalidExtDelegateCallTarget),
    ensures
        settled_gas(gas, result, tx_gas_limit) == (Gas { limit: tx_gas_limit, remaining: 0, refunded: 0 }),
{
}

} // verus!
