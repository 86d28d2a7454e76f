use provable_vm::commitment::digest_trace;
use provable_vm::commitment::digest_trace_hex;
use provable_vm::commitment::encode_trace;
use provable_vm::heap::Heap;
use provable_vm::program::Instruction;
use provable_vm::program::Opcode;
use provable_vm::vm::ProvableState;
use provable_vm::vm::ProvableVM;

use sha2::Digest;

fn inst(opcode: Opcode, operand: Option<u32>) -> Instruction {
    Instruction { opcode, operand }
}

fn sample_program() -> Vec<Instruction> {
    vec![
        inst(Opcode::PUSH, Some(5)),
        inst(Opcode::PUSH, Some(3)),
        inst(Opcode::ADD, None),
        inst(Opcode::STORE, Some(9)),
        inst(Opcode::HALT, None),
    ]
}

#[test]
fn commitment_is_the_digest_of_the_canonical_encoding() {
    let mut vm = ProvableVM::new();
    vm.run_program(&sample_program()).unwrap();
    let commitment = vm.generate_trace_commitment();
    assert_eq!(commitment.len(), 32);
    // The digest must really be SHA-256 of the canonical trace encoding,
    // not the encoding handed back or some other reduction of it.
    let bytes = encode_trace(&vm.trace);
    let expected = sha2::Sha256::digest(&bytes).to_vec();
    assert_eq!(commitment, expected);
    assert_ne!(commitment, bytes);
}

#[test]
fn hex_line_matches_the_digest() {
    let mut vm = ProvableVM::new();
    vm.run_program(&sample_program()).unwrap();
    let commitment = vm.generate_trace_commitment();
    let line = vm.trace_commitment_hex();
    assert_eq!(line.len(), 64);
    assert_eq!(line, hex::encode(&commitment));
    assert!(line.chars().all(|c| c.is_ascii_hexdigit() && !c.is_ascii_uppercase()));
}

#[test]
fn identical_runs_commit_identically() {
    let mut vm1 = ProvableVM::new();
    vm1.run_program(&sample_program()).unwrap();
    let mut vm2 = ProvableVM::new();
    vm2.run_program(&sample_program()).unwrap();
    assert_eq!(encode_trace(&vm1.trace), encode_trace(&vm2.trace));
    assert_eq!(vm1.generate_trace_commitment(), vm2.generate_trace_commitment());
    assert_eq!(vm1.trace_commitment_hex(), vm2.trace_commitment_hex());
}

fn mutated_traces() -> (Vec<ProvableState>, Vec<ProvableState>) {
    let mut vm = ProvableVM::new();
    vm.run_program(&sample_program()).unwrap();
    let base = vm.trace;
    let mut vm2 = ProvableVM::new();
    vm2.run_program(&sample_program()).unwrap();
    (base, vm2.trace)
}

#[test]
fn mutating_one_field_changes_the_commitment() {
    // pc of one entry
    let (base, mut t) = mutated_traces();
    t[1].pc += 1;
    assert_ne!(digest_trace(&base), digest_trace(&t));

    // one stack value
    let (base, mut t) = mutated_traces();
    t[2].stack[0] ^= 1;
    assert_ne!(digest_trace(&base), digest_trace(&t));

    // one heap binding
    let (base, mut t) = mutated_traces();
    let mut h = Heap::new();
    h.set(9, 1234);
    t[4].heap = h;
    assert_ne!(digest_trace(&base), digest_trace(&t));

    // flags
    let (base, mut t) = mutated_traces();
    t[0].flags = 1;
    assert_ne!(digest_trace(&base), digest_trace(&t));

    // dropping an entry
    let (base, mut t) = mutated_traces();
    t.pop();
    assert_ne!(digest_trace(&base), digest_trace(&t));
}

#[test]
fn different_programs_commit_differently() {
    let mut vm1 = ProvableVM::new();
    vm1.run_program(&vec![inst(Opcode::PUSH, Some(5)), inst(Opcode::HALT, None)])
        .unwrap();
    let mut vm2 = ProvableVM::new();
    vm2.run_program(&vec![inst(Opcode::PUSH, Some(6)), inst(Opcode::HALT, None)])
        .unwrap();
    assert_ne!(vm1.generate_trace_commitment(), vm2.generate_trace_commitment());
    assert_eq!(digest_trace_hex(&vm1.trace), vm1.trace_commitment_hex());
}
