use ark_bls12_381::Bls12_381;
use ark_bls12_381::Fr;
use ark_ff::PrimeField;
use ark_groth16::Groth16;
use ark_relations::r1cs::ConstraintSynthesizer;
use ark_relations::r1cs::ConstraintSystemRef;
use ark_relations::r1cs::LinearCombination;
use ark_relations::r1cs::SynthesisError;
use ark_relations::r1cs::Variable;
use ark_serialize::CanonicalDeserialize;
use ark_serialize::CanonicalSerialize;
use ark_snark::CircuitSpecificSetupSNARK;
use ark_snark::SNARK;
use rand_chacha::ChaCha20Rng;
use rand_core::SeedableRng;

use provable_vm::circuit::ExecutionCircuit;
use provable_vm::circuit::Gate;
use provable_vm::circuit::SynthesisError as VmSynthesisError;
use provable_vm::program::Instruction;
use provable_vm::program::Opcode;
use provable_vm::vm::ExecutionError;
use provable_vm::vm::ProvableVM;

/// Replays the verified constraint script against the backend's constraint
/// system: one `new_input_variable`/`new_witness_variable` and
/// `enforce_constraint` sequence per gate, nothing else.
struct ReplayCircuit {
    gates: Vec<Gate>,
    commitment: Vec<u8>,
}

fn lc(v: Variable) -> LinearCombination<Fr> {
    LinearCombination::from(v)
}

impl ConstraintSynthesizer<Fr> for ReplayCircuit {
    fn generate_constraints(self, cs: ConstraintSystemRef<Fr>) -> Result<(), SynthesisError> {
        for gate in self.gates.iter() {
            match *gate {
                Gate::PublicCommitment => {
                    let c = Fr::from_le_bytes_mod_order(&self.commitment);
                    let v = cs.new_input_variable(|| Ok(c))?;
                    cs.enforce_constraint(lc(v), lc(Variable::One), LinearCombination::from((c, Variable::One)))?;
                }
                Gate::PushValue { value } => {
                    let v = cs.new_witness_variable(|| Ok(Fr::from(value)))?;
                    cs.enforce_constraint(lc(v), lc(Variable::One), lc(v))?;
                }
                Gate::AddGate { a, b, r } => {
                    let av = cs.new_witness_variable(|| Ok(Fr::from(a)))?;
                    let bv = cs.new_witness_variable(|| Ok(Fr::from(b)))?;
                    let rv = cs.new_witness_variable(|| Ok(Fr::from(r)))?;
                    cs.enforce_constraint(lc(av) + bv, lc(Variable::One), lc(rv))?;
                }
                Gate::SubGate { a, b, r } => {
                    let av = cs.new_witness_variable(|| Ok(Fr::from(a)))?;
                    let bv = cs.new_witness_variable(|| Ok(Fr::from(b)))?;
                    let rv = cs.new_witness_variable(|| Ok(Fr::from(r)))?;
                    cs.enforce_constraint(lc(bv) - av, lc(Variable::One), lc(rv))?;
                }
                Gate::StoreCell { addr, value } | Gate::LoadCell { addr, value } => {
                    let av = cs.new_witness_variable(|| Ok(Fr::from(addr)))?;
                    let vv = cs.new_witness_variable(|| Ok(Fr::from(value)))?;
                    cs.enforce_constraint(lc(av), lc(Variable::One), lc(av))?;
                    cs.enforce_constraint(lc(vv), lc(Variable::One), lc(vv))?;
                }
                Gate::HaltMark => {
                    cs.enforce_constraint(
                        lc(Variable::One),
                        lc(Variable::One),
                        lc(Variable::One),
                    )?;
                }
                Gate::FinalStackCheck { got, want } => {
                    let gv = cs.new_witness_variable(|| Ok(Fr::from(got)))?;
                    let wv = cs.new_witness_variable(|| Ok(Fr::from(want)))?;
                    cs.enforce_constraint(lc(gv), lc(Variable::One), lc(wv))?;
                }
            }
        }
        Ok(())
    }
}

fn inst(opcode: Opcode, operand: Option<u32>) -> Instruction {
    Instruction { opcode, operand }
}

fn scenario_program() -> Vec<Instruction> {
    vec![
        inst(Opcode::PUSH, Some(5)),
        inst(Opcode::PUSH, Some(3)),
        inst(Opcode::ADD, None),
        inst(Opcode::HALT, None),
    ]
}

fn build(program: &Vec<Instruction>) -> (ExecutionCircuit, Vec<Gate>) {
    let mut vm = ProvableVM::new();
    vm.run_program(program).unwrap();
    let circuit = ExecutionCircuit::from_vm(&vm, program).unwrap();
    let gates = circuit.synthesize().unwrap();
    (circuit, gates)
}

#[test]
fn setup_prove_verify_round_trip() {
    // Scenario: PUSH 5, PUSH 3, ADD, HALT — the honest proof verifies.
    let program = scenario_program();
    let (circuit, gates) = build(&program);
    let replay = ReplayCircuit { gates: gates.clone(), commitment: circuit.trace_commitment.clone() };
    let mut rng = ChaCha20Rng::from_entropy();
    let (pk, vk) = Groth16::<Bls12_381>::setup(replay, &mut rng).unwrap();
    let replay = ReplayCircuit { gates, commitment: circuit.trace_commitment.clone() };
    let mut rng = ChaCha20Rng::from_entropy();
    let proof = Groth16::<Bls12_381>::prove(&pk, replay, &mut rng).unwrap();
    let public_inputs = vec![Fr::from_le_bytes_mod_order(&circuit.trace_commitment)];
    assert!(Groth16::<Bls12_381>::verify(&vk, &public_inputs, &proof).unwrap());
}

#[test]
fn verify_against_a_different_commitment_fails() {
    let program = scenario_program();
    let (circuit, gates) = build(&program);
    let replay = ReplayCircuit { gates: gates.clone(), commitment: circuit.trace_commitment.clone() };
    let mut rng = ChaCha20Rng::from_entropy();
    let (pk, vk) = Groth16::<Bls12_381>::setup(replay, &mut rng).unwrap();
    let replay = ReplayCircuit { gates, commitment: circuit.trace_commitment.clone() };
    let mut rng = ChaCha20Rng::from_entropy();
    let proof = Groth16::<Bls12_381>::prove(&pk, replay, &mut rng).unwrap();
    let mut other = circuit.trace_commitment.clone();
    other[0] ^= 0xff;
    let wrong_inputs = vec![Fr::from_le_bytes_mod_order(&other)];
    assert!(!Groth16::<Bls12_381>::verify(&vk, &wrong_inputs, &proof).unwrap());
}

#[test]
fn corrupted_proof_artifact_reports_invalid() {
    // Flipping one bit in the persisted proof bytes must yield "invalid",
    // never a crash.
    let program = scenario_program();
    let (circuit, gates) = build(&program);
    let replay = ReplayCircuit { gates: gates.clone(), commitment: circuit.trace_commitment.clone() };
    let mut rng = ChaCha20Rng::from_entropy();
    let (pk, vk) = Groth16::<Bls12_381>::setup(replay, &mut rng).unwrap();
    let replay = ReplayCircuit { gates, commitment: circuit.trace_commitment.clone() };
    let mut rng = ChaCha20Rng::from_entropy();
    let proof = Groth16::<Bls12_381>::prove(&pk, replay, &mut rng).unwrap();

    let mut bytes = Vec::new();
    proof.serialize_compressed(&mut bytes).unwrap();
    bytes[0] ^= 0x01;
    let public_inputs = vec![Fr::from_le_bytes_mod_order(&circuit.trace_commitment)];
    let valid = match ark_groth16::Proof::<Bls12_381>::deserialize_compressed(bytes.as_slice()) {
        Ok(p) => Groth16::<Bls12_381>::verify(&vk, &public_inputs, &p).unwrap_or(false),
        Err(_) => false,
    };
    assert!(!valid);
}

#[test]
fn tampered_arithmetic_witness_fails_its_constraint() {
    // A genuine ADD/SUB witness satisfies the synthesized system; nudging
    // the result by one leaves it unsatisfied.
    let program = vec![
        inst(Opcode::PUSH, Some(5)),
        inst(Opcode::PUSH, Some(3)),
        inst(Opcode::ADD, None),
        inst(Opcode::PUSH, Some(2)),
        inst(Opcode::SUB, None),
        inst(Opcode::HALT, None),
    ];
    let (circuit, gates) = build(&program);

    let honest = ReplayCircuit { gates: gates.clone(), commitment: circuit.trace_commitment.clone() };
    let cs = ark_relations::r1cs::ConstraintSystem::<Fr>::new_ref();
    honest.generate_constraints(cs.clone()).unwrap();
    assert!(cs.is_satisfied().unwrap());

    let mut tampered = gates.clone();
    for g in tampered.iter_mut() {
        if let Gate::AddGate { r, .. } = g {
            *r += 1;
        }
    }
    assert_ne!(tampered, gates);
    let bad = ReplayCircuit { gates: tampered, commitment: circuit.trace_commitment.clone() };
    let cs = ark_relations::r1cs::ConstraintSystem::<Fr>::new_ref();
    bad.generate_constraints(cs.clone()).unwrap();
    assert!(!cs.is_satisfied().unwrap());

    let mut tampered = gates.clone();
    for g in tampered.iter_mut() {
        if let Gate::SubGate { r, .. } = g {
            *r += 1;
        }
    }
    assert_ne!(tampered, gates);
    let bad = ReplayCircuit { gates: tampered, commitment: circuit.trace_commitment.clone() };
    let cs = ark_relations::r1cs::ConstraintSystem::<Fr>::new_ref();
    bad.generate_constraints(cs.clone()).unwrap();
    assert!(!cs.is_satisfied().unwrap());
}

#[test]
fn missing_final_stack_is_a_typed_error() {
    let program = scenario_program();
    let mut vm = ProvableVM::new();
    vm.run_program(&program).unwrap();
    let mut circuit = ExecutionCircuit::from_vm(&vm, &program).unwrap();
    // The replay finishes with [8] on the stack; declaring an empty final
    // stack must fail with a typed error, not an abort.
    circuit.final_state.stack = Vec::new();
    assert_eq!(circuit.synthesize(), Err(VmSynthesisError::FinalStackMissing));
}

#[test]
fn synthesize_mirrors_execution_failures() {
    // The replay rejects exactly what the interpreter rejects.
    let program = vec![inst(Opcode::PUSH, Some(1)), inst(Opcode::SUB, None)];
    let mut vm = ProvableVM::new();
    let run_err = vm.run_program(&program).unwrap_err();
    assert_eq!(run_err, ExecutionError::StackUnderflow);

    // Build a circuit from a trace of a successful prefix, then synthesize
    // against the failing program: the typed error mirrors the interpreter.
    let mut ok_vm = ProvableVM::new();
    ok_vm.run_program(&vec![inst(Opcode::HALT, None)]).unwrap();
    let mut circuit = ExecutionCircuit::from_vm(&ok_vm, &vec![inst(Opcode::HALT, None)]).unwrap();
    circuit.program = program;
    assert_eq!(
        circuit.synthesize(),
        Err(VmSynthesisError::Replay { cause: ExecutionError::StackUnderflow })
    );
}

#[test]
fn synthesize_emits_the_expected_gates() {
    let program = scenario_program();
    let (_, gates) = build(&program);
    assert_eq!(
        gates,
        vec![
            Gate::PublicCommitment,
            Gate::PushValue { value: 5 },
            Gate::PushValue { value: 3 },
            Gate::AddGate { a: 3, b: 5, r: 8 },
            Gate::HaltMark,
            Gate::FinalStackCheck { got: 8, want: 8 },
        ]
    );
}

#[test]
fn empty_trace_gives_no_circuit() {
    let vm = ProvableVM::new();
    assert!(ExecutionCircuit::from_vm(&vm, &scenario_program()).is_none());
}
