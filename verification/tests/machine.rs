use provable_vm::heap::Heap;
use provable_vm::program::Instruction;
use provable_vm::program::Opcode;
use provable_vm::vm::ExecutionError;
use provable_vm::vm::ProvableVM;

fn inst(opcode: Opcode, operand: Option<u32>) -> Instruction {
    Instruction { opcode, operand }
}

#[test]
fn scenario_push_add_halt() {
    // PUSH 5, PUSH 3, ADD, HALT: final stack [8], trace length 4.
    let program = vec![
        inst(Opcode::PUSH, Some(5)),
        inst(Opcode::PUSH, Some(3)),
        inst(Opcode::ADD, None),
        inst(Opcode::HALT, None),
    ];
    let mut vm = ProvableVM::new();
    assert!(vm.run_program(&program).is_ok());
    assert_eq!(vm.stack, vec![8]);
    assert_eq!(vm.trace.len(), 4);
    // One snapshot before each of the 3 executed steps, plus the final one.
    assert_eq!(vm.trace[0].pc, 0);
    assert_eq!(vm.trace[1].pc, 1);
    assert_eq!(vm.trace[2].pc, 2);
    assert_eq!(vm.trace[3].pc, 3);
    assert_eq!(vm.trace[3].stack, vec![8]);
}

#[test]
fn scenario_push_pop_halt() {
    // PUSH 2, POP, HALT: trace length 3, final stack empty.
    let program = vec![
        inst(Opcode::PUSH, Some(2)),
        inst(Opcode::POP, None),
        inst(Opcode::HALT, None),
    ];
    let mut vm = ProvableVM::new();
    assert!(vm.run_program(&program).is_ok());
    assert!(vm.stack.is_empty());
    assert_eq!(vm.trace.len(), 3);
}

#[test]
fn scenario_load_missing_address() {
    // LOAD 7 against an empty heap: a typed execution error.
    let program = vec![inst(Opcode::LOAD, Some(7))];
    let mut vm = ProvableVM::new();
    let r = vm.run_program(&program);
    assert_eq!(r, Err(ExecutionError::AddressNotFound { addr: 7 }));
    // Only the pre-snapshot of the failing instruction was captured.
    assert_eq!(vm.trace.len(), 1);
}

#[test]
fn run_past_end_without_halt() {
    let program = vec![inst(Opcode::PUSH, Some(1))];
    let mut vm = ProvableVM::new();
    assert!(vm.run_program(&program).is_ok());
    assert_eq!(vm.stack, vec![1]);
    assert_eq!(vm.trace.len(), 2);
}

#[test]
fn sub_is_checked() {
    // Stack [5, 3]: SUB pops a=3, b=5, pushes 2.
    let program = vec![
        inst(Opcode::PUSH, Some(5)),
        inst(Opcode::PUSH, Some(3)),
        inst(Opcode::SUB, None),
        inst(Opcode::HALT, None),
    ];
    let mut vm = ProvableVM::new();
    assert!(vm.run_program(&program).is_ok());
    assert_eq!(vm.stack, vec![2]);

    // Stack [3, 5]: 3 - 5 underflows and fails, it does not wrap.
    let program = vec![
        inst(Opcode::PUSH, Some(3)),
        inst(Opcode::PUSH, Some(5)),
        inst(Opcode::SUB, None),
    ];
    let mut vm = ProvableVM::new();
    assert_eq!(vm.run_program(&program), Err(ExecutionError::SubUnderflow));
}

#[test]
fn add_overflow_fails_deterministically() {
    let program = vec![
        inst(Opcode::PUSH, Some(u32::MAX)),
        inst(Opcode::PUSH, Some(1)),
        inst(Opcode::ADD, None),
    ];
    let mut vm = ProvableVM::new();
    assert_eq!(vm.run_program(&program), Err(ExecutionError::AddOverflow));
}

#[test]
fn push_requires_operand() {
    let program = vec![inst(Opcode::PUSH, None)];
    let mut vm = ProvableVM::new();
    assert_eq!(vm.run_program(&program), Err(ExecutionError::MissingOperand));
}

#[test]
fn pop_requires_value() {
    let program = vec![inst(Opcode::POP, None)];
    let mut vm = ProvableVM::new();
    assert_eq!(vm.run_program(&program), Err(ExecutionError::StackUnderflow));
}

#[test]
fn jump_opcodes_are_unsupported() {
    let mut vm = ProvableVM::new();
    assert_eq!(
        vm.run_program(&vec![inst(Opcode::JMP, Some(0))]),
        Err(ExecutionError::UnsupportedOpcode)
    );
    let mut vm = ProvableVM::new();
    assert_eq!(
        vm.run_program(&vec![inst(Opcode::JZ, Some(0))]),
        Err(ExecutionError::UnsupportedOpcode)
    );
}

#[test]
fn store_then_load_round_trip() {
    let program = vec![
        inst(Opcode::PUSH, Some(42)),
        inst(Opcode::STORE, Some(7)),
        inst(Opcode::LOAD, Some(7)),
        inst(Opcode::HALT, None),
    ];
    let mut vm = ProvableVM::new();
    assert!(vm.run_program(&program).is_ok());
    assert_eq!(vm.stack, vec![42]);
    assert_eq!(vm.heap.get(7), Some(42));
}

#[test]
fn store_requires_stack_value() {
    let program = vec![inst(Opcode::STORE, Some(7))];
    let mut vm = ProvableVM::new();
    assert_eq!(vm.run_program(&program), Err(ExecutionError::StackUnderflow));
}

#[test]
fn heap_keeps_canonical_order() {
    let mut h = Heap::new();
    h.set(9, 90);
    h.set(3, 30);
    h.set(7, 70);
    h.set(3, 31);
    assert_eq!(h.len(), 3);
    assert_eq!(h.entry_at(0), (3, 31));
    assert_eq!(h.entry_at(1), (7, 70));
    assert_eq!(h.entry_at(2), (9, 90));
    assert_eq!(h.get(3), Some(31));
    assert_eq!(h.get(7), Some(70));
    assert_eq!(h.get(9), Some(90));
    assert_eq!(h.get(4), None);
}
