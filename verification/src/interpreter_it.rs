//! An interpreter over the merged intermediate form: it executes counted
//! operations directly, so a run of identical instructions costs one step.
//!
//! Each run is bounded by an explicit step budget, so that a program that
//! never halts is reported rather than looped on forever.

use vstd::prelude::*;

use crate::jit::Code;
use crate::jit::ItOpcode;
use crate::jit::ir_of;
use crate::jit::lemma_build_ir_targets;
use crate::jit::targets_within;
use crate::machine::MachineState;
use crate::machine::Outcome;
use crate::machine::StepResult;
use crate::machine::cell_dec;
use crate::machine::cell_inc;
use crate::machine::move_left;
use crate::machine::pad_to;
use crate::opcode::filter_instructions;
use crate::opcode::lemma_filter_instructions_len;
use crate::Error;

verus! {

/// One step of the machine over the merged intermediate form, given the
/// whole input stream. The pointer stops at cell zero when moving left, and
/// the tape grows with zeroed cells when moving right past its end.
pub open spec fn it_step(prog: Seq<ItOpcode>, input: Seq<u8>, st: MachineState) -> StepResult {
    if st.pc >= prog.len() {
        StepResult::Halt
    } else {
        match prog[st.pc as int] {
            ItOpcode::SHL(v) => StepResult::Next(
                MachineState {
                    tape: st.tape,
                    ptr: move_left(st.ptr, v as nat),
                    pc: st.pc + 1,
                    read: st.read,
                    out: st.out,
                },
            ),
            ItOpcode::SHR(v) => StepResult::Next(
                MachineState {
                    tape: pad_to(st.tape, (st.ptr + v + 1) as nat),
                    ptr: (st.ptr + v) as nat,
                    pc: st.pc + 1,
                    read: st.read,
                    out: st.out,
                },
            ),
            ItOpcode::ADD(v) => StepResult::Next(
                MachineState {
                    tape: st.tape.update(st.ptr as int, cell_inc(st.tape[st.ptr as int], v)),
                    ptr: st.ptr,
                    pc: st.pc + 1,
                    read: st.read,
                    out: st.out,
                },
            ),
            ItOpcode::SUB(v) => StepResult::Next(
                MachineState {
                    tape: st.tape.update(st.ptr as int, cell_dec(st.tape[st.ptr as int], v)),
                    ptr: st.ptr,
                    pc: st.pc + 1,
                    read: st.read,
                    out: st.out,
                },
            ),
            ItOpcode::LSB(v) => StepResult::Next(
                MachineState {
                    tape: st.tape,
                    ptr: st.ptr,
                    pc: if st.tape[st.ptr as int] == 0 {
                        (v + 1) as nat
                    } else {
                        st.pc + 1
                    },
                    read: st.read,
                    out: st.out,
                },
            ),
            ItOpcode::RSB(v) => StepResult::Next(
                MachineState {
                    tape: st.tape,
                    ptr: st.ptr,
                    pc: if st.tape[st.ptr as int] != 0 {
                        (v + 1) as nat
                    } else {
                        st.pc + 1
                    },
                    read: st.read,
                    out: st.out,
                },
            ),
            ItOpcode::GETCHAR => if st.read < input.len() {
                StepResult::Next(
                    MachineState {
                        tape: st.tape.update(st.ptr as int, input[st.read as int]),
                        ptr: st.ptr,
                        pc: st.pc + 1,
                        read: st.read + 1,
                        out: st.out,
                    },
                )
            } else {
                StepResult::NoInput
            },
            ItOpcode::PUTCHAR => StepResult::Next(
                MachineState {
                    tape: st.tape,
                    ptr: st.ptr,
                    pc: st.pc + 1,
                    read: st.read,
                    out: st.out.push(st.tape[st.ptr as int]),
                },
            ),
        }
    }
}

/// Where the machine stands after executing at most `n` operations of the
/// merged form from `st`: halted past the last operation, failed on an
/// exhausted input, or still running with the budget spent.
pub open spec fn it_run(prog: Seq<ItOpcode>, input: Seq<u8>, st: MachineState, n: nat) -> Outcome
    decreases n,
{
    if st.pc >= prog.len() {
        Outcome::Halted(st)
    } else if n == 0 {
        Outcome::Running(st)
    } else {
        match it_step(prog, input, st) {
            StepResult::Next(next) => it_run(prog, input, next, (n - 1) as nat),
            StepResult::Halt => Outcome::Halted(st),
            StepResult::NoInput => Outcome::Failed(st),
        }
    }
}

/// The interpreter over the merged intermediate form; it owns the tape,
/// which persists from run to run and always holds at least one cell.
pub struct Interpreter {
    stack: Vec<u8>,
}

impl View for Interpreter {
    type V = Seq<u8>;

    closed spec fn view(&self) -> Seq<u8> {
        self.stack@
    }
}

impl Interpreter {
    /// The tape always holds at least one cell, so that the cell under a
    /// fresh pointer exists.
    pub open spec fn wf(&self) -> bool {
        self@.len() >= 1
    }

    /// The tape as it stands after the last run.
    pub fn tape(&self) -> (r: &Vec<u8>)
        ensures
            r@ == self@,
    {
        &self.stack
    }

    /// Compiles `data` to the merged intermediate form and executes it over
    /// this interpreter's tape, reading from `input` and returning the
    /// output, within a budget of `max_steps` operations.
    ///
    /// The result and the tape afterwards are exactly what the small-step
    /// semantics `it_run` reaches from a fresh pointer on the old tape:
    /// the output on a halt, `InputExhausted` when a read finds no input
    /// byte left, `StepLimitExceeded` when the budget runs out first, and
    /// the malformed-program errors of `Code::from` without touching the
    /// tape.
    pub fn run(&mut self, data: Vec<u8>, input: &Vec<u8>, max_steps: u64) -> (r: Result<
        Vec<u8>,
        Error,
    >)
        requires
            old(self).wf(),
            data@.len() <= 0xffff_ffff,
        ensures
            final(self).wf(),
            ({
                let b = ir_of(data@);
                match b {
                    None => r == Err::<Vec<u8>, Error>(Error::UnmatchedLoopClose) && final(self)@
                        == old(self)@,
                    Some((ops, stk)) => if stk.len() > 0 {
                        r == Err::<Vec<u8>, Error>(Error::UnmatchedLoopOpen) && final(self)@ == old(
                            self,
                        )@
                    } else {
                        let init = (MachineState {
                            tape: old(self)@,
                            ptr: 0,
                            pc: 0,
                            read: 0,
                            out: Seq::<u8>::empty(),
                        });
                        match it_run(ops, input@, init, max_steps as nat) {
                            Outcome::Halted(s) => r is Ok && r->Ok_0@ == s.out && final(self)@
                                == s.tape,
                            Outcome::Failed(s) => r == Err::<Vec<u8>, Error>(Error::InputExhausted)
                                && final(self)@ == s.tape,
                            Outcome::Running(s) => r == Err::<Vec<u8>, Error>(
                                Error::StepLimitExceeded,
                            ) && final(self)@ == s.tape,
                        }
                    },
                }
            }),
    {
        let code = match Code::from(data) {
            Ok(c) => c,
            Err(e) => {
                return Err(e);
            },
        };
        let prog = code.it_opcodes;
        let prog_len = prog.len();
        proof {
            lemma_filter_instructions_len(data@);
            lemma_build_ir_targets(filter_instructions(data@));
        }
        let ghost init = (MachineState {
            tape: self.stack@,
            ptr: 0,
            pc: 0,
            read: 0,
            out: Seq::<u8>::empty(),
        });
        let mut pc: usize = 0;
        let mut ptr: usize = 0;
        let mut read: usize = 0;
        let mut out: Vec<u8> = Vec::new();
        let mut steps: u64 = 0;
        while pc < prog_len && steps < max_steps
            invariant
                prog_len == prog@.len(),
                ir_of(data@) is Some,
                ir_of(data@)->Some_0.0 == prog@,
                ir_of(data@)->Some_0.1.len() == 0,
                init == (MachineState {
                    tape: old(self)@,
                    ptr: 0,
                    pc: 0,
                    read: 0,
                    out: Seq::<u8>::empty(),
                }),
                targets_within(prog@),
                ptr < self.stack@.len(),
                read <= input@.len(),
                steps <= max_steps,
                it_run(prog@, input@, init, max_steps as nat) == it_run(
                    prog@,
                    input@,
                    (MachineState {
                        tape: self.stack@,
                        ptr: ptr as nat,
                        pc: pc as nat,
                        read: read as nat,
                        out: out@,
                    }),
                    (max_steps - steps) as nat,
                ),
            decreases max_steps - steps,
        {
            let ghost cur = (MachineState {
                tape: self.stack@,
                ptr: ptr as nat,
                pc: pc as nat,
                read: read as nat,
                out: out@,
            });
            let op = prog[pc];
            match op {
                ItOpcode::SHL(v) => {
                    let vv = v as usize;
                    if ptr >= vv {
                        ptr = ptr - vv;
                    } else {
                        ptr = 0;
                    }
                    pc = pc + 1;
                },
                ItOpcode::SHR(v) => {
                    let ghost tape0 = self.stack@;
                    let ghost ptr0 = ptr as nat;
                    let mut k: u32 = 0;
                    proof {
                        assert(pad_to(tape0, (ptr0 + 1) as nat) =~= tape0);
                    }
                    while k < v
                        invariant
                            k <= v,
                            ptr as nat == ptr0 + k,
                            ptr < self.stack@.len(),
                            self.stack@ == pad_to(tape0, (ptr0 + k + 1) as nat),
                        decreases v - k,
                    {
                        let ghost before = self.stack@;
                        let cap = self.stack.len();
                        ptr = ptr + 1;
                        if ptr == cap {
                            self.stack.push(0);
                            proof {
                                assert(before.len() == ptr0 + k + 1);
                                assert(self.stack@ =~= pad_to(tape0, (ptr0 + k + 2) as nat));
                            }
                        } else {
                            proof {
                                assert(before.len() > ptr0 + k + 1);
                                assert(tape0.len() >= ptr0 + k + 2);
                                assert(self.stack@ =~= pad_to(tape0, (ptr0 + k + 2) as nat));
                            }
                        }
                        k = k + 1;
                    }
                    pc = pc + 1;
                },
                ItOpcode::ADD(v) => {
                    let c = self.stack[ptr];
                    self.stack[ptr] = c.wrapping_add(v);
                    proof {
                        assert(c.wrapping_add(v) == cell_inc(c, v));
                    }
                    pc = pc + 1;
                },
                ItOpcode::SUB(v) => {
                    let c = self.stack[ptr];
                    self.stack[ptr] = c.wrapping_sub(v);
                    proof {
                        assert(c.wrapping_sub(v) == cell_dec(c, v));
                    }
                    pc = pc + 1;
                },
                ItOpcode::LSB(v) => {
                    if self.stack[ptr] == 0 {
                        pc = v as usize + 1;
                    } else {
                        pc = pc + 1;
                    }
                },
                ItOpcode::RSB(v) => {
                    if self.stack[ptr] != 0 {
                        pc = v as usize + 1;
                    } else {
                        pc = pc + 1;
                    }
                },
                ItOpcode::GETCHAR => {
                    if read < input.len() {
                        self.stack[ptr] = input[read];
                        read = read + 1;
                        pc = pc + 1;
                    } else {
                        proof {
                            assert(it_step(prog@, input@, cur) is NoInput);
                            assert(it_run(prog@, input@, cur, (max_steps - steps) as nat)
                                == Outcome::Failed(cur));
                        }
                        return Err(Error::InputExhausted);
                    }
                },
                ItOpcode::PUTCHAR => {
                    out.push(self.stack[ptr]);
                    pc = pc + 1;
                },
            }
            proof {
                let next = (MachineState {
                    tape: self.stack@,
                    ptr: ptr as nat,
                    pc: pc as nat,
                    read: read as nat,
                    out: out@,
                });
                assert(it_step(prog@, input@, cur) == StepResult::Next(next));
                assert(it_run(prog@, input@, cur, (max_steps - steps) as nat) == it_run(
                    prog@,
                    input@,
                    next,
                    (max_steps - steps - 1) as nat,
                ));
            }
            steps = steps + 1;
        }
        let ghost fin = (MachineState {
            tape: self.stack@,
            ptr: ptr as nat,
            pc: pc as nat,
            read: read as nat,
            out: out@,
        });
        if pc >= prog_len {
            proof {
                assert(it_run(prog@, input@, fin, (max_steps - steps) as nat) == Outcome::Halted(
                    fin,
                ));
            }
            Ok(out)
        } else {
            proof {
                assert((max_steps - steps) as nat == 0);
                assert(it_run(prog@, input@, fin, 0) == Outcome::Running(fin));
            }
            Err(Error::StepLimitExceeded)
        }
    }
}

impl Default for Interpreter {
    /// A fresh interpreter: one zeroed cell on the tape.
    fn default() -> (r: Self)
        ensures
            r@ == seq![0u8],
            r.wf(),
    {
        Interpreter { stack: vec![0] }
    }
}

} // verus!
