use evm_pool::execution::{create_init_frame, last_frame_result};
use evm_pool::frame_data::{FrameData, FrameResult, Output};
use evm_pool::interpreter::{
    CallOutcome, CallScheme, CallValue, CreateOutcome, CreateScheme, EOFCreateKind, FrameInput,
    Gas, InstructionResult, InterpreterResult,
};
use evm_pool::primitives::{Address, SpecId, TxKind, U256};

fn addr(b: u8) -> Address {
    Address([b; 20])
}

fn result(r: InstructionResult, remaining: u64, refunded: i64) -> InterpreterResult {
    InterpreterResult {
        result: r,
        output: vec![1, 2, 3],
        gas: Gas { limit: 1000, remaining, refunded },
    }
}

#[test]
fn init_frame_call() {
    let input = vec![0xEF, 0x00, 1];
    let frame = create_init_frame(addr(1), U256([5, 0, 0, 0]), TxKind::Call(addr(2)), &input, None, SpecId::OSAKA, 77);
    match frame {
        FrameInput::Call(inputs) => {
            assert_eq!(inputs.input, input);
            assert_eq!(inputs.gas_limit, 77);
            assert_eq!(inputs.target_address, addr(2));
            assert_eq!(inputs.bytecode_address, addr(2));
            assert_eq!(inputs.caller, addr(1));
            assert_eq!(inputs.value, CallValue::Transfer(U256([5, 0, 0, 0])));
            assert_eq!(inputs.scheme, CallScheme::Call);
            assert!(!inputs.is_static);
            assert!(!inputs.is_eof);
            assert_eq!(inputs.return_memory_offset, 0..0);
        }
        other => panic!("expected a call frame, got {other:?}"),
    }
}

#[test]
fn init_frame_extended_when_commitment() {
    let input = vec![0xEF, 0x00];
    let commitment = vec![9, 9, 9];
    let frame = create_init_frame(addr(1), U256([5, 0, 0, 0]), TxKind::Create, &input, Some(&commitment), SpecId::OSAKA, 77);
    match frame {
        FrameInput::Extended(inputs) => {
            assert_eq!(inputs.caller, addr(1));
            assert_eq!(inputs.value, U256([5, 0, 0, 0]));
            assert_eq!(inputs.commitment, commitment);
        }
        other => panic!("expected extended inputs, got {other:?}"),
    }
}

#[test]
fn init_frame_eof_create_from_osaka() {
    let input = vec![0xEF, 0x00, 7];
    let frame = create_init_frame(addr(1), U256([0; 4]), TxKind::Create, &input, None, SpecId::OSAKA, 10);
    match frame {
        FrameInput::EOFCreate(inputs) => {
            assert_eq!(inputs.caller, addr(1));
            assert_eq!(inputs.gas_limit, 10);
            match &inputs.kind {
                EOFCreateKind::Tx { initdata } => assert_eq!(initdata, &input),
            }
        }
        other => panic!("expected an EOF create frame, got {other:?}"),
    }
}

#[test]
fn init_frame_legacy_create_before_osaka_or_without_magic() {
    for (spec, input) in [
        (SpecId::PRAGUE, vec![0xEF, 0x00, 7]),
        (SpecId::OSAKA, vec![0xEF, 0x01]),
        (SpecId::LATEST, vec![0xEF]),
        (SpecId::CANCUN, vec![]),
    ] {
        let frame = create_init_frame(addr(3), U256([1, 2, 3, 4]), TxKind::Create, &input, None, spec, 10);
        match frame {
            FrameInput::Create(inputs) => {
                assert_eq!(inputs.caller, addr(3));
                assert_eq!(inputs.scheme, CreateScheme::Create);
                assert_eq!(inputs.value, U256([1, 2, 3, 4]));
                assert_eq!(inputs.init_code, input);
                assert_eq!(inputs.gas_limit, 10);
            }
            other => panic!("expected a create frame, got {other:?}"),
        }
    }
    let frame = create_init_frame(addr(3), U256([0; 4]), TxKind::Create, &vec![0xEF, 0x00], None, SpecId::LATEST, 10);
    assert!(matches!(frame, FrameInput::EOFCreate(_)));
}

#[test]
fn spec_order() {
    assert!(SpecId::LATEST.is_enabled_in(SpecId::OSAKA));
    assert!(SpecId::OSAKA.is_enabled_in(SpecId::OSAKA));
    assert!(!SpecId::PRAGUE.is_enabled_in(SpecId::OSAKA));
    assert!(SpecId::CANCUN.is_enabled_in(SpecId::FRONTIER));
}

#[test]
fn settle_gas_success_keeps_remaining_and_refund() {
    let mut frame = FrameResult::Call(CallOutcome { result: result(InstructionResult::Stop, 400, 30), memory_offset: 0..4 });
    last_frame_result(5000, &mut frame);
    assert_eq!(*frame.gas(), Gas { limit: 5000, remaining: 400, refunded: 30 });
    assert_eq!(frame.instruction_result(), InstructionResult::Stop);
    match &frame {
        FrameResult::Call(outcome) => assert_eq!(outcome.memory_offset, 0..4),
        _ => panic!("kind changed"),
    }
}

#[test]
fn settle_gas_revert_keeps_remaining_only() {
    let mut frame = FrameResult::Create(CreateOutcome { result: result(InstructionResult::Revert, 400, 30), address: None });
    last_frame_result(5000, &mut frame);
    assert_eq!(*frame.gas(), Gas { limit: 5000, remaining: 400, refunded: 0 });
}

#[test]
fn settle_gas_halt_spends_all() {
    let mut frame = FrameResult::EOFCreate(CreateOutcome { result: result(InstructionResult::OutOfGas, 400, 30), address: Some(addr(4)) });
    last_frame_result(5000, &mut frame);
    assert_eq!(*frame.gas(), Gas { limit: 5000, remaining: 0, refunded: 0 });
}

#[test]
fn frame_result_accessors() {
    let mut frame = FrameResult::Create(CreateOutcome { result: result(InstructionResult::Return, 1, 2), address: Some(addr(8)) });
    match frame.output() {
        Output::Create(bytes, address) => {
            assert_eq!(bytes, vec![1, 2, 3]);
            assert_eq!(address, Some(addr(8)));
        }
        other => panic!("expected a create output, got {other:?}"),
    }
    frame.gas_mut().remaining = 9;
    frame.interpreter_result_mut().output = vec![4];
    assert_eq!(frame.interpreter_result().gas.remaining, 9);
    assert_eq!(frame.interpreter_result().output, vec![4]);
    let inner = frame.into_interpreter_result();
    assert_eq!(inner.result, InstructionResult::Return);

    let call = FrameResult::Call(CallOutcome { result: result(InstructionResult::Revert, 1, 2), memory_offset: 1..2 });
    match call.output() {
        Output::Call(bytes) => assert_eq!(bytes, vec![1, 2, 3]),
        other => panic!("expected a call output, got {other:?}"),
    }
}

#[test]
fn instruction_result_classes() {
    assert!(InstructionResult::Return.is_ok());
    assert!(InstructionResult::Revert.is_revert());
    assert!(InstructionResult::OutOfFunds.is_ok_or_revert());
    assert!(!InstructionResult::OutOfGas.is_ok_or_revert());
    assert!(!InstructionResult::Revert.is_ok());
}

#[test]
fn gas_operations() {
    let mut gas = Gas::new_spent(100);
    assert_eq!(gas.remaining(), 0);
    gas.erase_cost(40);
    gas.record_refund(-3);
    assert_eq!(gas, Gas { limit: 100, remaining: 40, refunded: -3 });
    assert_eq!(Gas::new(7).remaining(), 7);
}

#[test]
fn frame_data_kinds() {
    let create = FrameData::new_create(addr(6));
    assert!(create.is_create());
    assert!(!create.is_call());
    assert_eq!(create.created_address(), Some(addr(6)));
    let call = FrameData::new_call(3..9);
    assert!(call.is_call());
    assert!(!call.is_create());
    assert_eq!(call.created_address(), None);
    match call {
        FrameData::Call(frame) => assert_eq!(frame.return_memory_range, 3..9),
        _ => panic!("expected a call frame"),
    }
}
