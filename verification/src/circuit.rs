//! The constraint circuit: a symbolic replay of the program that mirrors
//! the interpreter opcode by opcode and emits, with concrete witness
//! values, the algebraic constraints a proving backend will enforce over
//! the scalar field. The commitment is bound as the sole public input; the
//! per-cell LOAD/STORE identities carry no cross-instruction memory
//! consistency argument, and the final check compares only the bottom
//! stack value — both known hardening gaps of this relation.

use vstd::prelude::*;

use crate::program::Instruction;
use crate::program::Opcode;
use crate::vm::ExecutionError;
use crate::vm::ProvableState;
use crate::vm::ProvableVM;
use crate::vm::Snap;
use crate::vm::copy_words;
use crate::vm::run_from;
use crate::vm::step_res;
use crate::vm::trace_snaps;

verus! {

/// Typed constraint-synthesis failures: a malformed but reachable input
/// never aborts the build.
#[derive(Copy, Clone, Debug, PartialEq, Eq, Structural)]
pub enum SynthesisError {
    /// The simulated replay violated an instruction precondition.
    Replay { cause: ExecutionError },
    /// The replay finished with values on the simulated stack but the
    /// declared final state has an empty stack to compare against.
    FinalStackMissing,
}

/// One constraint of the relation, with the concrete witness values that
/// will be assigned to its variables. Every gate stands for one enforced
/// `left * 1 = right` equation over the scalar field.
#[derive(Copy, Clone, Debug, PartialEq, Eq, Structural)]
pub enum Gate {
    /// The mandatory first constraint: the public-input variable carrying
    /// the commitment's field encoding equals that same field constant.
    PublicCommitment,
    /// A PUSH operand bound as a fresh witness to itself.
    PushValue { value: u32 },
    /// ADD: `a + b = r`.
    AddGate { a: u32, b: u32, r: u32 },
    /// SUB: `b - a = r`.
    SubGate { a: u32, b: u32, r: u32 },
    /// STORE: address and value witnesses, each bound to itself.
    StoreCell { addr: u32, value: u32 },
    /// LOAD: address and value witnesses, each bound to itself.
    LoadCell { addr: u32, value: u32 },
    /// HALT's sentinel identity `1 = 1`.
    HaltMark,
    /// The final check: the replay's bottom stack value equals the
    /// declared final state's bottom stack value.
    FinalStackCheck { got: u32, want: u32 },
}

/// The order of the scalar field the constraints live in.
pub open spec fn scalar_modulus() -> int {
    0x73eda753299d7d483339d80809a1d80553bda402fffe5bfeffffffff00000001int
}

/// An integer as a scalar-field value.
pub open spec fn fmod(n: int) -> int {
    n % scalar_modulus()
}

/// Whether a gate's witness values satisfy its field equation.
pub open spec fn gate_holds(g: Gate) -> bool {
    match g {
        Gate::AddGate { a, b, r } => fmod(a + b) == fmod(r as int),
        Gate::SubGate { a, b, r } => fmod(b - a) == fmod(r as int),
        Gate::FinalStackCheck { got, want } => fmod(got as int) == fmod(want as int),
        Gate::PublicCommitment => true,
        Gate::PushValue { .. } => true,
        Gate::StoreCell { .. } => true,
        Gate::LoadCell { .. } => true,
        Gate::HaltMark => true,
    }
}

/// The constraints one successful non-HALT step contributes, with the
/// witness values read from the snapshot it starts in.
pub open spec fn gates_of_step(s: Snap, i: Instruction) -> Seq<Gate> {
    match i.opcode {
        Opcode::PUSH => seq![Gate::PushValue { value: i.operand->0 }],
        Opcode::POP => seq![],
        Opcode::ADD => seq![
            Gate::AddGate {
                a: s.stack.last(),
                b: s.stack[s.stack.len() - 2],
                r: (s.stack.last() + s.stack[s.stack.len() - 2]) as u32,
            },
        ],
        Opcode::SUB => seq![
            Gate::SubGate {
                a: s.stack.last(),
                b: s.stack[s.stack.len() - 2],
                r: (s.stack[s.stack.len() - 2] - s.stack.last()) as u32,
            },
        ],
        Opcode::JMP => seq![],
        Opcode::JZ => seq![],
        Opcode::LOAD => seq![
            Gate::LoadCell {
                addr: i.operand->0,
                value: crate::heap::entries_get(s.heap, i.operand->0)->0,
            },
        ],
        Opcode::STORE => seq![Gate::StoreCell { addr: i.operand->0, value: s.stack.last() }],
        Opcode::HALT => seq![],
    }
}

/// What a symbolic replay of `prog` from snapshot `s` produces: the gates
/// it emits, the snapshot it finishes in, and the typed error it stops
/// with if an instruction precondition is violated. The replay follows
/// `step_res` — the interpreter's own transition — exactly, stops at HALT
/// with its sentinel gate, and stops silently past the last instruction.
pub open spec fn synth_from(prog: Seq<Instruction>, s: Snap) -> SynthRun
    decreases prog.len() - s.pc,
{
    if s.pc >= prog.len() {
        SynthRun { gates: seq![], fin: s, error: None }
    } else if prog[s.pc as int].opcode == Opcode::HALT {
        SynthRun { gates: seq![Gate::HaltMark], fin: s, error: None }
    } else {
        match step_res(s, prog[s.pc as int]) {
            Ok(s2) => {
                let rest = synth_from(prog, s2);
                SynthRun {
                    gates: gates_of_step(s, prog[s.pc as int]) + rest.gates,
                    fin: rest.fin,
                    error: rest.error,
                }
            },
            Err(e) => SynthRun {
                gates: seq![],
                fin: s,
                error: Some(SynthesisError::Replay { cause: e }),
            },
        }
    }
}

/// A symbolic replay's outcome.
#[verifier::ext_equal]
pub struct SynthRun {
    pub gates: Seq<Gate>,
    pub fin: Snap,
    pub error: Option<SynthesisError>,
}

/// Every gate a replay emits carries a genuine witness: its field equation
/// is satisfied by construction.
pub proof fn lemma_synth_gates_hold(prog: Seq<Instruction>, s: Snap)
    ensures
        forall|k: int|
            0 <= k < synth_from(prog, s).gates.len() ==> gate_holds(
                #[trigger] synth_from(prog, s).gates[k],
            ),
    decreases prog.len() - s.pc,
{
    if s.pc < prog.len() && prog[s.pc as int].opcode != Opcode::HALT {
        if let Ok(s2) = step_res(s, prog[s.pc as int]) {
            assert(s2.pc == s.pc + 1);
            lemma_synth_gates_hold(prog, s2);
            let i = prog[s.pc as int];
            let own = gates_of_step(s, i);
            assert forall|k: int| 0 <= k < own.len() implies gate_holds(own[k]) by {
                match i.opcode {
                    Opcode::ADD => {
                        let a = s.stack.last();
                        let b = s.stack[s.stack.len() - 2];
                        lemma_add_gate_sound(a, b);
                    },
                    Opcode::SUB => {
                        let a = s.stack.last();
                        let b = s.stack[s.stack.len() - 2];
                        lemma_sub_gate_sound(a, b);
                    },
                    _ => {},
                }
            }
            assert forall|k: int| 0 <= k < synth_from(prog, s).gates.len() implies gate_holds(
                #[trigger] synth_from(prog, s).gates[k],
            ) by {
                if k < own.len() {
                    assert(synth_from(prog, s).gates[k] == own[k]);
                } else {
                    assert(synth_from(prog, s).gates[k] == synth_from(prog, s2).gates[
                        k - own.len()]);
                }
            }
        }
    }
}

/// Arithmetic soundness, positive half for ADD: the genuine witness
/// `r = a + b` satisfies the ADD constraint over the field.
pub proof fn lemma_add_gate_sound(a: u32, b: u32)
    requires
        a + b <= u32::MAX,
    ensures
        gate_holds(Gate::AddGate { a, b, r: (a + b) as u32 }),
{
    vstd::arithmetic::div_mod::lemma_small_mod((a + b) as nat, scalar_modulus() as nat);
}

/// Arithmetic soundness, negative half for ADD: any tampered result —
/// anything but `a + b` — fails the constraint.
pub proof fn lemma_add_gate_tamper(a: u32, b: u32, r: u32)
    requires
        a + b <= u32::MAX,
        r != a + b,
    ensures
        !gate_holds(Gate::AddGate { a, b, r }),
{
    vstd::arithmetic::div_mod::lemma_small_mod((a + b) as nat, scalar_modulus() as nat);
    vstd::arithmetic::div_mod::lemma_small_mod(r as nat, scalar_modulus() as nat);
}

/// Arithmetic soundness, positive half for SUB: the genuine witness
/// `r = b - a` (with `a <= b`) satisfies the SUB constraint.
pub proof fn lemma_sub_gate_sound(a: u32, b: u32)
    requires
        a <= b,
    ensures
        gate_holds(Gate::SubGate { a, b, r: (b - a) as u32 }),
{
    vstd::arithmetic::div_mod::lemma_small_mod((b - a) as nat, scalar_modulus() as nat);
}

/// Arithmetic soundness, negative half for SUB: any tampered result fails
/// the constraint.
pub proof fn lemma_sub_gate_tamper(a: u32, b: u32, r: u32)
    requires
        a <= b,
        r != b - a,
    ensures
        !gate_holds(Gate::SubGate { a, b, r }),
{
    vstd::arithmetic::div_mod::lemma_small_mod((b - a) as nat, scalar_modulus() as nat);
    vstd::arithmetic::div_mod::lemma_small_mod(r as nat, scalar_modulus() as nat);
}

/// Replay completeness: when the interpreter's run succeeds, the symbolic
/// replay of the same program from the same snapshot succeeds too and
/// finishes in the run's final snapshot.
pub proof fn lemma_synthesis_complete(prog: Seq<Instruction>, s: Snap)
    requires
        run_from(prog, s).error is None,
    ensures
        synth_from(prog, s).error is None,
        synth_from(prog, s).fin == run_from(prog, s).trace.last(),
    decreases prog.len() - s.pc,
{
    if s.pc < prog.len() && prog[s.pc as int].opcode != Opcode::HALT {
        match step_res(s, prog[s.pc as int]) {
            Ok(s2) => {
                assert(s2.pc == s.pc + 1);
                lemma_synthesis_complete(prog, s2);
                crate::vm::lemma_run_trace_shape(prog, s2);
                assert((seq![s] + run_from(prog, s2).trace).last() == run_from(
                    prog,
                    s2,
                ).trace.last());
            },
            Err(e) => {
                assert(run_from(prog, s).error == Some(e));
            },
        }
    }
}

/// Completeness: a circuit assembled from a successful run synthesizes
/// without error, and every constraint it emits — the final stack check
/// against the run's own last snapshot included — is satisfied by its
/// witness values.
pub proof fn lemma_circuit_complete(prog: Seq<Instruction>, s: Snap)
    requires
        run_from(prog, s).error is None,
    ensures
        synth_from(prog, s).error is None,
        forall|k: int|
            0 <= k < synth_from(prog, s).gates.len() ==> gate_holds(
                #[trigger] synth_from(prog, s).gates[k],
            ),
        synth_from(prog, s).fin.stack.len() > 0 ==> gate_holds(
            Gate::FinalStackCheck {
                got: synth_from(prog, s).fin.stack[0],
                want: run_from(prog, s).trace.last().stack[0],
            },
        ),
{
    lemma_synthesis_complete(prog, s);
    lemma_synth_gates_hold(prog, s);
    if synth_from(prog, s).fin.stack.len() > 0 {
        vstd::arithmetic::div_mod::lemma_small_mod(
            synth_from(prog, s).fin.stack[0] as nat,
            scalar_modulus() as nat,
        );
    }
}

/// The complete description of the relation to be proved: initial and
/// final snapshots, the program, and the trace commitment that becomes the
/// sole public input. Constructed once per proof attempt, never mutated.
pub struct ExecutionCircuit {
    pub initial_state: ProvableState,
    pub final_state: ProvableState,
    pub program: Vec<Instruction>,
    pub trace_commitment: Vec<u8>,
}

/// An exact copy of an instruction vector.
fn copy_instructions(v: &Vec<Instruction>) -> (r: Vec<Instruction>)
    ensures
        r@ =~= v@,
{
    let mut out: Vec<Instruction> = Vec::new();
    let n = v.len();
    let mut i: usize = 0;
    while i < n
        invariant
            i <= n,
            n == v@.len(),
            out@ =~= v@.take(i as int),
        decreases n - i,
    {
        out.push(v[i]);
        assert(out@ =~= v@.take(i as int).push(v@[i as int]));
        assert(v@.take(i as int).push(v@[i as int]) =~= v@.take(i + 1));
        i = i + 1;
    }
    assert(v@.take(n as int) =~= v@);
    out
}

impl ExecutionCircuit {
    /// Assemble the relation for one proof attempt from a machine's
    /// captured trace: its first snapshot, its last snapshot, the program,
    /// and the commitment to the whole trace. `None` exactly when the
    /// trace is empty and there is no state to bind.
    pub fn from_vm(vm: &ProvableVM, program: &Vec<Instruction>) -> (r: Option<ExecutionCircuit>)
        ensures
            vm.trace@.len() == 0 <==> r is None,
            r is Some ==> ({
                let c = r->0;
                &&& c.initial_state@ =~= trace_snaps(vm.trace@)[0]
                &&& c.final_state@ =~= trace_snaps(vm.trace@).last()
                &&& c.program@ =~= program@
                &&& c.trace_commitment@ == crate::commitment::trace_commitment_of(
                    trace_snaps(vm.trace@),
                )
            }),
    {
        if vm.trace.len() == 0 {
            return None;
        }
        let commitment = vm.generate_trace_commitment();
        Some(
            ExecutionCircuit {
                initial_state: vm.trace[0].duplicate(),
                final_state: vm.trace[vm.trace.len() - 1].duplicate(),
                program: copy_instructions(program),
                trace_commitment: commitment,
            },
        )
    }

    /// Synthesize the constraint list: the public-input binding first,
    /// then the gates of the symbolic replay from the initial snapshot,
    /// then — when the replay leaves values on the simulated stack — the
    /// final check against the declared final state. Every precondition
    /// violation is a typed error, never an abort.
    #[verifier::loop_isolation(false)]
    pub fn synthesize(&self) -> (r: Result<Vec<Gate>, SynthesisError>)
        requires
            self.initial_state@.pc + self.program@.len() <= u32::MAX,
        ensures
            ({
                let run = synth_from(self.program@, self.initial_state@);
                match r {
                    Ok(g) => run.error is None && ({
                        if run.fin.stack.len() > 0 {
                            self.final_state@.stack.len() > 0 && g@ =~= seq![
                                Gate::PublicCommitment,
                            ] + run.gates + seq![
                                Gate::FinalStackCheck {
                                    got: run.fin.stack[0],
                                    want: self.final_state@.stack[0],
                                },
                            ]
                        } else {
                            g@ =~= seq![Gate::PublicCommitment] + run.gates
                        }
                    }),
                    Err(e) => match run.error {
                        Some(re) => e == re,
                        None => e == SynthesisError::FinalStackMissing && run.fin.stack.len() > 0
                            && self.final_state@.stack.len() == 0,
                    },
                }
            }),
    {
        let mut gates: Vec<Gate> = Vec::new();
        gates.push(Gate::PublicCommitment);
        let mut pc: u32 = self.initial_state.pc;
        let mut stack = copy_words(&self.initial_state.stack);
        let mut heap = self.initial_state.heap.duplicate();
        let flags = self.initial_state.flags;
        let ghost s0 = self.initial_state@;
        let n = self.program.len();
        proof {
            assert(Snap { pc: pc as nat, stack: stack@, heap: heap@, flags } =~= s0);
        }
        while (pc as usize) < n && !(self.program[pc as usize].opcode == Opcode::HALT)
            invariant
                n == self.program@.len(),
                pc as int <= s0.pc + n,
                ({
                    let cur = Snap { pc: pc as nat, stack: stack@, heap: heap@, flags };
                    &&& synth_from(self.program@, s0).gates =~= gates@.skip(1) + synth_from(
                        self.program@,
                        cur,
                    ).gates
                    &&& synth_from(self.program@, s0).error == synth_from(
                        self.program@,
                        cur,
                    ).error
                    &&& synth_from(self.program@, s0).fin == synth_from(self.program@, cur).fin
                }),
                gates@.len() >= 1,
                gates@[0] == Gate::PublicCommitment,
            decreases n - pc,
        {
            let ghost cur = Snap { pc: pc as nat, stack: stack@, heap: heap@, flags };
            let inst = self.program[pc as usize];
            let ghost prior = gates@;
            match inst.opcode {
                Opcode::PUSH => match inst.operand {
                    Some(value) => {
                        stack.push(value);
                        gates.push(Gate::PushValue { value });
                        pc = pc + 1;
                    },
                    None => {
                        proof {
                            reason_about_error(self.program@, cur, ExecutionError::MissingOperand);
                        }
                        return Err(
                            SynthesisError::Replay { cause: ExecutionError::MissingOperand },
                        );
                    },
                },
                Opcode::POP => {
                    if stack.len() >= 1 {
                        let _ = stack.pop();
                        assert(stack@ =~= cur.stack.drop_last());
                        pc = pc + 1;
                    } else {
                        proof {
                            reason_about_error(self.program@, cur, ExecutionError::StackUnderflow);
                        }
                        return Err(
                            SynthesisError::Replay { cause: ExecutionError::StackUnderflow },
                        );
                    }
                },
                Opcode::ADD => {
                    if stack.len() >= 2 {
                        let a = stack[stack.len() - 1];
                        let b = stack[stack.len() - 2];
                        if a <= u32::MAX - b {
                            let _ = stack.pop();
                            let _ = stack.pop();
                            stack.push(a + b);
                            assert(stack@ =~= cur.stack.drop_last().drop_last().push(
                                (a + b) as u32,
                            ));
                            gates.push(Gate::AddGate { a, b, r: a + b });
                            pc = pc + 1;
                        } else {
                            proof {
                                reason_about_error(self.program@, cur, ExecutionError::AddOverflow);
                            }
                            return Err(
                                SynthesisError::Replay { cause: ExecutionError::AddOverflow },
                            );
                        }
                    } else {
                        proof {
                            reason_about_error(self.program@, cur, ExecutionError::StackUnderflow);
                        }
                        return Err(
                            SynthesisError::Replay { cause: ExecutionError::StackUnderflow },
                        );
                    }
                },
                Opcode::SUB => {
                    if stack.len() >= 2 {
                        let a = stack[stack.len() - 1];
                        let b = stack[stack.len() - 2];
                        if a <= b {
                            let _ = stack.pop();
                            let _ = stack.pop();
                            stack.push(b - a);
                            assert(stack@ =~= cur.stack.drop_last().drop_last().push(
                                (b - a) as u32,
                            ));
                            gates.push(Gate::SubGate { a, b, r: b - a });
                            pc = pc + 1;
                        } else {
                            proof {
                                reason_about_error(
                                    self.program@,
                                    cur,
                                    ExecutionError::SubUnderflow,
                                );
                            }
                            return Err(
                                SynthesisError::Replay { cause: ExecutionError::SubUnderflow },
                            );
                        }
                    } else {
                        proof {
                            reason_about_error(self.program@, cur, ExecutionError::StackUnderflow);
                        }
                        return Err(
                            SynthesisError::Replay { cause: ExecutionError::StackUnderflow },
                        );
                    }
                },
                Opcode::JMP => {
                    proof {
                        reason_about_error(self.program@, cur, ExecutionError::UnsupportedOpcode);
                    }
                    return Err(
                        SynthesisError::Replay { cause: ExecutionError::UnsupportedOpcode },
                    );
                },
                Opcode::JZ => {
                    proof {
                        reason_about_error(self.program@, cur, ExecutionError::UnsupportedOpcode);
                    }
                    return Err(
                        SynthesisError::Replay { cause: ExecutionError::UnsupportedOpcode },
                    );
                },
                Opcode::LOAD => match inst.operand {
                    Some(addr) => match heap.get(addr) {
                        Some(value) => {
                            stack.push(value);
                            gates.push(Gate::LoadCell { addr, value });
                            pc = pc + 1;
                        },
                        None => {
                            proof {
                                reason_about_error(
                                    self.program@,
                                    cur,
                                    ExecutionError::AddressNotFound { addr },
                                );
                            }
                            return Err(
                                SynthesisError::Replay {
                                    cause: ExecutionError::AddressNotFound { addr },
                                },
                            );
                        },
                    },
                    None => {
                        proof {
                            reason_about_error(self.program@, cur, ExecutionError::MissingOperand);
                        }
                        return Err(
                            SynthesisError::Replay { cause: ExecutionError::MissingOperand },
                        );
                    },
                },
                Opcode::STORE => match inst.operand {
                    Some(addr) => {
                        if stack.len() >= 1 {
                            let value = stack[stack.len() - 1];
                            let _ = stack.pop();
                            heap.set(addr, value);
                            assert(stack@ =~= cur.stack.drop_last());
                            gates.push(Gate::StoreCell { addr, value });
                            pc = pc + 1;
                        } else {
                            proof {
                                reason_about_error(
                                    self.program@,
                                    cur,
                                    ExecutionError::StackUnderflow,
                                );
                            }
                            return Err(
                                SynthesisError::Replay { cause: ExecutionError::StackUnderflow },
                            );
                        }
                    },
                    None => {
                        proof {
                            reason_about_error(self.program@, cur, ExecutionError::MissingOperand);
                        }
                        return Err(
                            SynthesisError::Replay { cause: ExecutionError::MissingOperand },
                        );
                    },
                },
                Opcode::HALT => {
                    proof {
                        assert(false);
                    }
                },
            }
            proof {
                let next = Snap { pc: pc as nat, stack: stack@, heap: heap@, flags };
                assert(step_res(cur, inst) is Ok);
                assert(step_res(cur, inst)->Ok_0 =~= next);
                assert(synth_from(self.program@, cur).gates =~= gates_of_step(cur, inst)
                    + synth_from(self.program@, next).gates);
                assert(gates@ =~= prior + gates_of_step(cur, inst));
                assert(gates@.skip(1) =~= prior.skip(1) + gates_of_step(cur, inst));
                assert(synth_from(self.program@, s0).gates =~= gates@.skip(1) + synth_from(
                    self.program@,
                    next,
                ).gates);
            }
        }
        let ghost cur = Snap { pc: pc as nat, stack: stack@, heap: heap@, flags };
        if (pc as usize) < n {
            gates.push(Gate::HaltMark);
            proof {
                assert(synth_from(self.program@, cur).gates =~= seq![Gate::HaltMark]);
                assert(synth_from(self.program@, cur).error is None);
                assert(synth_from(self.program@, cur).fin == cur);
            }
        } else {
            proof {
                assert(synth_from(self.program@, cur).gates =~= Seq::<Gate>::empty());
                assert(synth_from(self.program@, cur).error is None);
                assert(synth_from(self.program@, cur).fin == cur);
            }
        }
        proof {
            assert(synth_from(self.program@, s0).error is None);
            assert(synth_from(self.program@, s0).fin == cur);
            assert(synth_from(self.program@, s0).gates =~= gates@.skip(1));
        }
        if stack.len() > 0 {
            if self.final_state.stack.len() == 0 {
                return Err(SynthesisError::FinalStackMissing);
            }
            let got = stack[0];
            let want = self.final_state.stack[0];
            gates.push(Gate::FinalStackCheck { got, want });
            assert(gates@ =~= seq![Gate::PublicCommitment] + synth_from(
                self.program@,
                s0,
            ).gates + seq![Gate::FinalStackCheck { got, want }]);
        } else {
            assert(gates@ =~= seq![Gate::PublicCommitment] + synth_from(self.program@, s0).gates);
        }
        Ok(gates)
    }
}

/// On a precondition violation the replay's outcome is exactly that error.
proof fn reason_about_error(prog: Seq<Instruction>, cur: Snap, e: ExecutionError)
    requires
        cur.pc < prog.len(),
        prog[cur.pc as int].opcode != Opcode::HALT,
        step_res(cur, prog[cur.pc as int]) == Err::<Snap, ExecutionError>(e),
    ensures
        synth_from(prog, cur).error == Some(SynthesisError::Replay { cause: e }),
        synth_from(prog, cur).fin == cur,
{
}

} // verus!
