//! The execution engine: a deterministic stack machine that records the
//! ordered sequence of states it passes through.

use vstd::prelude::*;

use crate::heap::Heap;
use crate::heap::entries_get;
use crate::heap::entries_set;
use crate::program::Instruction;
use crate::program::Opcode;

verus! {

/// Typed interpreter failures: a stack, heap or operand precondition was
/// violated while interpreting an instruction. Execution never aborts.
#[derive(Copy, Clone, Debug, PartialEq, Eq, Structural)]
pub enum ExecutionError {
    /// PUSH, LOAD or STORE was given no operand.
    MissingOperand,
    /// POP, ADD, SUB or STORE found too few values on the stack.
    StackUnderflow,
    /// ADD would exceed the 32-bit range; addition fails rather than wraps.
    AddOverflow,
    /// SUB would go below zero; subtraction is checked, not wrapping.
    SubUnderflow,
    /// LOAD from an address that holds no value.
    AddressNotFound { addr: u32 },
    /// JMP and JZ are declared but carry no semantics.
    UnsupportedOpcode,
}

/// The mathematical value of one machine snapshot: program counter, stack
/// (top is the last element), sparse heap in canonical entry order, flags.
#[verifier::ext_equal]
pub struct Snap {
    pub pc: nat,
    pub stack: Seq<u32>,
    pub heap: Seq<(u32, u32)>,
    pub flags: u8,
}

/// One captured machine state: a snapshot of the working registers.
pub struct ProvableState {
    pub pc: u32,
    pub stack: Vec<u32>,
    pub heap: Heap,
    pub flags: u8,
}

impl View for ProvableState {
    type V = Snap;

    open spec fn view(&self) -> Snap {
        Snap { pc: self.pc as nat, stack: self.stack@, heap: self.heap@, flags: self.flags }
    }
}

/// What interpreting one instruction does to a snapshot: the next snapshot,
/// or the typed error. HALT leaves the snapshot unchanged (the run loop is
/// what stops on it); every successful non-HALT step advances `pc` by one.
pub open spec fn step_res(s: Snap, i: Instruction) -> Result<Snap, ExecutionError> {
    match i.opcode {
        Opcode::PUSH => match i.operand {
            Some(v) => Ok(Snap { pc: s.pc + 1, stack: s.stack.push(v), ..s }),
            None => Err(ExecutionError::MissingOperand),
        },
        Opcode::POP => if s.stack.len() >= 1 {
            Ok(Snap { pc: s.pc + 1, stack: s.stack.drop_last(), ..s })
        } else {
            Err(ExecutionError::StackUnderflow)
        },
        Opcode::ADD => if s.stack.len() >= 2 {
            let a = s.stack.last();
            let b = s.stack[s.stack.len() - 2];
            if a + b <= u32::MAX {
                Ok(Snap {
                    pc: s.pc + 1,
                    stack: s.stack.drop_last().drop_last().push((a + b) as u32),
                    ..s
                })
            } else {
                Err(ExecutionError::AddOverflow)
            }
        } else {
            Err(ExecutionError::StackUnderflow)
        },
        Opcode::SUB => if s.stack.len() >= 2 {
            let a = s.stack.last();
            let b = s.stack[s.stack.len() - 2];
            if a <= b {
                Ok(Snap {
                    pc: s.pc + 1,
                    stack: s.stack.drop_last().drop_last().push((b - a) as u32),
                    ..s
                })
            } else {
                Err(ExecutionError::SubUnderflow)
            }
        } else {
            Err(ExecutionError::StackUnderflow)
        },
        Opcode::JMP => Err(ExecutionError::UnsupportedOpcode),
        Opcode::JZ => Err(ExecutionError::UnsupportedOpcode),
        Opcode::LOAD => match i.operand {
            Some(addr) => match entries_get(s.heap, addr) {
                Some(v) => Ok(Snap { pc: s.pc + 1, stack: s.stack.push(v), ..s }),
                None => Err(ExecutionError::AddressNotFound { addr }),
            },
            None => Err(ExecutionError::MissingOperand),
        },
        Opcode::STORE => match i.operand {
            Some(addr) => if s.stack.len() >= 1 {
                Ok(Snap {
                    pc: s.pc + 1,
                    stack: s.stack.drop_last(),
                    heap: entries_set(s.heap, addr, s.stack.last()),
                    ..s
                })
            } else {
                Err(ExecutionError::StackUnderflow)
            },
            None => Err(ExecutionError::MissingOperand),
        },
        Opcode::HALT => Ok(s),
    }
}

/// The complete outcome of a run: the ordered snapshots it captured, the
/// error it stopped with (if any), and how many instructions it executed.
#[verifier::ext_equal]
pub struct RunOutcome {
    pub trace: Seq<Snap>,
    pub error: Option<ExecutionError>,
    pub steps: nat,
}

/// The run of `prog` starting from snapshot `s`: one snapshot is captured
/// before each executed instruction, and one final snapshot once the loop
/// stops — on HALT, on running past the last instruction, or on the typed
/// error of the failing instruction (whose pre-snapshot closes the trace).
pub open spec fn run_from(prog: Seq<Instruction>, s: Snap) -> RunOutcome
    decreases prog.len() - s.pc,
{
    if s.pc >= prog.len() {
        RunOutcome { trace: seq![s], error: None, steps: 0 }
    } else if prog[s.pc as int].opcode == Opcode::HALT {
        RunOutcome { trace: seq![s], error: None, steps: 0 }
    } else {
        match step_res(s, prog[s.pc as int]) {
            Ok(s2) => {
                let rest = run_from(prog, s2);
                RunOutcome {
                    trace: seq![s] + rest.trace,
                    error: rest.error,
                    steps: 1 + rest.steps,
                }
            },
            Err(e) => RunOutcome { trace: seq![s], error: Some(e), steps: 0 },
        }
    }
}

/// The snapshots of a captured trace.
pub open spec fn trace_snaps(t: Seq<ProvableState>) -> Seq<Snap> {
    t.map_values(|st: ProvableState| st@)
}

/// Trace-length law: a run captures exactly one snapshot per executed
/// instruction plus one more — the final snapshot on clean termination, or
/// the pre-snapshot of the failing instruction on a typed error.
pub proof fn lemma_trace_length(prog: Seq<Instruction>, s: Snap)
    ensures
        run_from(prog, s).trace.len() == run_from(prog, s).steps + 1,
    decreases prog.len() - s.pc,
{
    if s.pc < prog.len() && prog[s.pc as int].opcode != Opcode::HALT {
        if let Ok(s2) = step_res(s, prog[s.pc as int]) {
            assert(s2.pc == s.pc + 1);
            lemma_trace_length(prog, s2);
        }
    }
}

/// A run's trace is never empty and starts at the initial snapshot.
pub proof fn lemma_run_trace_shape(prog: Seq<Instruction>, s: Snap)
    ensures
        run_from(prog, s).trace.len() >= 1,
        run_from(prog, s).trace[0] == s,
    decreases prog.len() - s.pc,
{
    if s.pc < prog.len() && prog[s.pc as int].opcode != Opcode::HALT {
        if let Ok(s2) = step_res(s, prog[s.pc as int]) {
            assert(s2.pc == s.pc + 1);
            lemma_run_trace_shape(prog, s2);
        }
    }
}

/// The stack virtual machine: working registers plus the trace captured by
/// the run that owns it.
pub struct ProvableVM {
    pub pc: u32,
    pub stack: Vec<u32>,
    pub heap: Heap,
    pub flags: u8,
    pub trace: Vec<ProvableState>,
}

/// An exact copy of a word vector.
pub(crate) fn copy_words(v: &Vec<u32>) -> (r: Vec<u32>)
    ensures
        r@ =~= v@,
{
    let mut out: Vec<u32> = Vec::new();
    let n = v.len();
    let mut i: usize = 0;
    while i < n
        invariant
            i <= n,
            n == v@.len(),
            out@ =~= v@.take(i as int),
        decreases n - i,
    {
        out.push(v[i]);
        assert(out@ =~= v@.take(i as int).push(v@[i as int]));
        assert(v@.take(i as int).push(v@[i as int]) =~= v@.take(i + 1));
        i = i + 1;
    }
    assert(v@.take(n as int) =~= v@);
    out
}

impl ProvableState {
    /// An exact copy of this captured state.
    pub fn duplicate(&self) -> (r: ProvableState)
        ensures
            r@ =~= self@,
    {
        ProvableState {
            pc: self.pc,
            stack: copy_words(&self.stack),
            heap: self.heap.duplicate(),
            flags: self.flags,
        }
    }
}

impl ProvableVM {
    /// The working registers as one mathematical snapshot.
    pub open spec fn snap(&self) -> Snap {
        Snap { pc: self.pc as nat, stack: self.stack@, heap: self.heap@, flags: self.flags }
    }

    /// A fresh machine: everything zeroed, empty stack, heap and trace.
    pub fn new() -> (r: ProvableVM)
        ensures
            r.pc == 0,
            r.stack@ =~= Seq::<u32>::empty(),
            r.heap@ =~= Seq::<(u32, u32)>::empty(),
            r.flags == 0,
            r.trace@ =~= Seq::<ProvableState>::empty(),
    {
        ProvableVM { pc: 0, stack: Vec::new(), heap: Heap::new(), flags: 0, trace: Vec::new() }
    }

    /// Snapshot the current working registers.
    pub fn capture_state(&self) -> (r: ProvableState)
        ensures
            r@ =~= self.snap(),
    {
        ProvableState {
            pc: self.pc,
            stack: copy_words(&self.stack),
            heap: self.heap.duplicate(),
            flags: self.flags,
        }
    }

    /// Interpret one instruction against the working registers: mirrors
    /// `step_res` exactly, returns `Ok(false)` on HALT (the loop's stop
    /// signal, registers untouched), `Ok(true)` after any other successful
    /// step, and leaves the machine unchanged on a typed error.
    fn execute_instruction(&mut self, instruction: &Instruction) -> (r: Result<
        bool,
        ExecutionError,
    >)
        requires
            old(self).pc < u32::MAX,
        ensures
            final(self).trace@ == old(self).trace@,
            match r {
                Ok(true) => instruction.opcode != Opcode::HALT && step_res(
                    old(self).snap(),
                    *instruction,
                ) is Ok && step_res(old(self).snap(), *instruction)->Ok_0 =~= final(self).snap(),
                Ok(false) => instruction.opcode == Opcode::HALT && *final(self) == *old(self),
                Err(e) => step_res(old(self).snap(), *instruction) == Err::<Snap, ExecutionError>(
                    e,
                ) && *final(self) == *old(self),
            },
    {
        match instruction.opcode {
            Opcode::PUSH => match instruction.operand {
                Some(value) => {
                    self.stack.push(value);
                    self.pc = self.pc + 1;
                    Ok(true)
                },
                None => Err(ExecutionError::MissingOperand),
            },
            Opcode::POP => {
                if self.stack.len() >= 1 {
                    let _ = self.stack.pop();
                    self.pc = self.pc + 1;
                    assert(self.stack@ =~= old(self).stack@.drop_last());
                    Ok(true)
                } else {
                    Err(ExecutionError::StackUnderflow)
                }
            },
            Opcode::ADD => {
                if self.stack.len() >= 2 {
                    let a = self.stack[self.stack.len() - 1];
                    let b = self.stack[self.stack.len() - 2];
                    if a <= u32::MAX - b {
                        let _ = self.stack.pop();
                        let _ = self.stack.pop();
                        self.stack.push(a + b);
                        self.pc = self.pc + 1;
                        assert(self.stack@ =~= old(self).stack@.drop_last().drop_last().push(
                            (a + b) as u32,
                        ));
                        Ok(true)
                    } else {
                        Err(ExecutionError::AddOverflow)
                    }
                } else {
                    Err(ExecutionError::StackUnderflow)
                }
            },
            Opcode::SUB => {
                if self.stack.len() >= 2 {
                    let a = self.stack[self.stack.len() - 1];
                    let b = self.stack[self.stack.len() - 2];
                    if a <= b {
                        let _ = self.stack.pop();
                        let _ = self.stack.pop();
                        self.stack.push(b - a);
                        self.pc = self.pc + 1;
                        assert(self.stack@ =~= old(self).stack@.drop_last().drop_last().push(
                            (b - a) as u32,
                        ));
                        Ok(true)
                    } else {
                        Err(ExecutionError::SubUnderflow)
                    }
                } else {
                    Err(ExecutionError::StackUnderflow)
                }
            },
            Opcode::JMP => Err(ExecutionError::UnsupportedOpcode),
            Opcode::JZ => Err(ExecutionError::UnsupportedOpcode),
            Opcode::LOAD => match instruction.operand {
                Some(addr) => match self.heap.get(addr) {
                    Some(value) => {
                        self.stack.push(value);
                        self.pc = self.pc + 1;
                        Ok(true)
                    },
                    None => Err(ExecutionError::AddressNotFound { addr }),
                },
                None => Err(ExecutionError::MissingOperand),
            },
            Opcode::STORE => match instruction.operand {
                Some(addr) => {
                    if self.stack.len() >= 1 {
                        let value = self.stack[self.stack.len() - 1];
                        let _ = self.stack.pop();
                        self.heap.set(addr, value);
                        self.pc = self.pc + 1;
                        assert(self.stack@ =~= old(self).stack@.drop_last());
                        Ok(true)
                    } else {
                        Err(ExecutionError::StackUnderflow)
                    }
                },
                None => Err(ExecutionError::MissingOperand),
            },
            Opcode::HALT => Ok(false),
        }
    }

    /// Run `program` from the current registers, appending to the trace one
    /// snapshot before each executed instruction and one final snapshot when
    /// the loop stops — on HALT or on running past the last instruction. On
    /// a typed error the pre-snapshot of the failing instruction closes the
    /// trace and the error is returned; nothing is retried.
    #[verifier::loop_isolation(false)]
    pub fn run_program(&mut self, program: &Vec<Instruction>) -> (r: Result<(), ExecutionError>)
        requires
            program@.len() <= u32::MAX as int,
        ensures
            trace_snaps(final(self).trace@) =~= trace_snaps(old(self).trace@) + run_from(
                program@,
                old(self).snap(),
            ).trace,
            final(self).snap() =~= run_from(program@, old(self).snap()).trace.last(),
            match r {
                Ok(()) => run_from(program@, old(self).snap()).error is None,
                Err(e) => run_from(program@, old(self).snap()).error == Some(e),
            },
    {
        let ghost s0 = self.snap();
        let ghost t0 = self.trace@;
        proof {
            assert(self.trace@.skip(t0.len() as int) =~= Seq::<ProvableState>::empty());
            assert(trace_snaps(Seq::<ProvableState>::empty()) =~= Seq::<Snap>::empty());
            assert(run_from(program@, s0).trace =~= trace_snaps(
                self.trace@.skip(t0.len() as int),
            ) + run_from(program@, self.snap()).trace);
        }
        while (self.pc as usize) < program.len() && !(program[self.pc as usize].opcode
            == Opcode::HALT)
            invariant
                program@.len() <= u32::MAX as int,
                t0.len() <= self.trace@.len(),
                self.trace@.take(t0.len() as int) == t0,
                run_from(program@, s0).trace =~= trace_snaps(self.trace@.skip(t0.len() as int))
                    + run_from(program@, self.snap()).trace,
                run_from(program@, s0).error == run_from(program@, self.snap()).error,
            decreases program@.len() - self.pc,
        {
            let inst = program[self.pc as usize];
            let st = self.capture_state();
            let ghost pre = self.snap();
            let ghost tr_pre = self.trace@;
            self.trace.push(st);
            proof {
                assert(self.trace@.take(t0.len() as int) =~= tr_pre.take(t0.len() as int));
                assert(self.trace@.skip(t0.len() as int) =~= tr_pre.skip(t0.len() as int).push(st));
                lemma_snaps_push(tr_pre.skip(t0.len() as int), st);
            }
            match self.execute_instruction(&inst) {
                Ok(b) => {
                    proof {
                        assert(b);
                        let s2 = step_res(pre, inst)->Ok_0;
                        assert(s2 == self.snap());
                        assert(run_from(program@, pre).trace =~= seq![pre] + run_from(
                            program@,
                            s2,
                        ).trace);
                        assert(run_from(program@, pre).error == run_from(program@, s2).error);
                        assert(st@ == pre);
                        assert(trace_snaps(self.trace@.skip(t0.len() as int)) =~= trace_snaps(
                            tr_pre.skip(t0.len() as int),
                        ).push(pre));
                        assert(run_from(program@, s0).trace =~= trace_snaps(
                            self.trace@.skip(t0.len() as int),
                        ) + run_from(program@, self.snap()).trace);
                    }
                },
                Err(e) => {
                    proof {
                        assert(run_from(program@, pre).trace =~= seq![pre]);
                        assert(run_from(program@, pre).error == Some(e));
                        assert(st@ == pre);
                        assert(trace_snaps(self.trace@.skip(t0.len() as int)) =~= trace_snaps(
                            tr_pre.skip(t0.len() as int),
                        ).push(pre));
                        assert(run_from(program@, s0).trace =~= trace_snaps(
                            self.trace@.skip(t0.len() as int),
                        ));
                        lemma_snaps_split(self.trace@, t0.len() as int);
                        assert(self.snap() == pre);
                        assert(run_from(program@, s0).trace.last() == pre);
                        assert(trace_snaps(self.trace@) =~= trace_snaps(t0) + run_from(
                            program@,
                            s0,
                        ).trace);
                    }
                    return Err(e);
                },
            }
        }
        let stf = self.capture_state();
        let ghost cur = self.snap();
        let ghost tr_pre = self.trace@;
        self.trace.push(stf);
        proof {
            assert(run_from(program@, cur).trace =~= seq![cur]);
            assert(run_from(program@, cur).error is None);
            assert(self.trace@.take(t0.len() as int) =~= tr_pre.take(t0.len() as int));
            assert(self.trace@.skip(t0.len() as int) =~= tr_pre.skip(t0.len() as int).push(stf));
            lemma_snaps_push(tr_pre.skip(t0.len() as int), stf);
            assert(stf@ == cur);
            assert(run_from(program@, s0).trace =~= trace_snaps(
                self.trace@.skip(t0.len() as int),
            ));
            lemma_snaps_split(self.trace@, t0.len() as int);
            assert(run_from(program@, s0).trace.last() == cur);
        }
        Ok(())
    }
}

/// Taking the snapshots of a trace distributes over appending one state.
proof fn lemma_snaps_push(t: Seq<ProvableState>, st: ProvableState)
    ensures
        trace_snaps(t.push(st)) =~= trace_snaps(t).push(st@),
{
    assert forall|i: int| 0 <= i < t.len() + 1 implies trace_snaps(t.push(st))[i] == trace_snaps(
        t,
    ).push(st@)[i] by {
        if i < t.len() {
            assert(t.push(st)[i] == t[i]);
        } else {
            assert(t.push(st)[i] == st);
        }
    }
}

/// Taking the snapshots of a trace distributes over splitting it in two.
proof fn lemma_snaps_split(t: Seq<ProvableState>, n: int)
    requires
        0 <= n <= t.len(),
    ensures
        trace_snaps(t) =~= trace_snaps(t.take(n)) + trace_snaps(t.skip(n)),
{
    assert forall|i: int| 0 <= i < t.len() implies trace_snaps(t)[i] == (trace_snaps(t.take(n))
        + trace_snaps(t.skip(n)))[i] by {
        if i < n {
            assert(t.take(n)[i] == t[i]);
        } else {
            assert(t.skip(n)[i - n] == t[i]);
        }
    }
}

} // verus!
