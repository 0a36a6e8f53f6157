//! The baseline interpreter: it executes the filtered instruction stream one
//! instruction at a time, with a jump table pairing every loop-open with its
//! loop-close.
//!
//! Each run is bounded by an explicit step budget, so that a program that
//! never halts is reported rather than looped on forever.

use vstd::prelude::*;

use crate::machine::MachineState;
use crate::machine::Outcome;
use crate::machine::StepResult;
use crate::machine::cell_dec;
use crate::machine::cell_inc;
use crate::machine::move_left;
use crate::machine::pad_to;
use crate::opcode::OPCODE_ADD;
use crate::opcode::OPCODE_GETCHAR;
use crate::opcode::OPCODE_LSB;
use crate::opcode::OPCODE_PUTCHAR;
use crate::opcode::OPCODE_RSB;
use crate::opcode::OPCODE_SHL;
use crate::opcode::OPCODE_SHR;
use crate::opcode::OPCODE_SUB;
use crate::opcode::filter_instructions;
use crate::opcode::is_instruction;
use crate::opcode::is_instruction_byte;
use crate::Error;

verus! {

/// One symbolic instruction of the language.
#[allow(non_camel_case_types)]
#[derive(Clone, Copy, Debug, PartialEq, Eq, Structural)]
pub enum Opcode {
    SHL,
    SHR,
    ADD,
    SUB,
    LSB,
    RSB,
    GETCHAR,
    PUTCHAR,
}

/// The symbolic instruction of an instruction byte.
pub open spec fn opcode_of(u: u8) -> Opcode {
    if u == OPCODE_SHL {
        Opcode::SHL
    } else if u == OPCODE_SHR {
        Opcode::SHR
    } else if u == OPCODE_ADD {
        Opcode::ADD
    } else if u == OPCODE_SUB {
        Opcode::SUB
    } else if u == OPCODE_LSB {
        Opcode::LSB
    } else if u == OPCODE_RSB {
        Opcode::RSB
    } else if u == OPCODE_GETCHAR {
        Opcode::GETCHAR
    } else if u == OPCODE_PUTCHAR {
        Opcode::PUTCHAR
    } else {
        arbitrary()
    }
}

/// The symbolic program of a raw byte program: non-instruction bytes are
/// dropped, the rest are read as instructions, in order.
pub open spec fn program_of(data: Seq<u8>) -> Seq<Opcode> {
    filter_instructions(data).map(|i: int, u: u8| opcode_of(u))
}

/// Whether an instruction is a loop boundary.
pub open spec fn is_loop_op(op: Opcode) -> bool {
    op is LSB || op is RSB
}

/// One instruction folded into the loop-pairing scan at position `i`: `jt`
/// maps each matched loop boundary to its partner, `stk` holds the
/// positions of the loop-opens still open. `None` marks a loop-close with
/// no open loop.
pub open spec fn scan_step(jt: Map<int, int>, stk: Seq<int>, op: Opcode, i: int) -> Option<
    (Map<int, int>, Seq<int>),
> {
    match op {
        Opcode::LSB => Some((jt, stk.push(i))),
        Opcode::RSB => if stk.len() == 0 {
            None
        } else {
            Some((jt.insert(stk.last(), i).insert(i, stk.last()), stk.drop_last()))
        },
        _ => Some((jt, stk)),
    }
}

/// The loop-pairing scan over the first `n` instructions.
pub open spec fn scan_prefix(prog: Seq<Opcode>, n: nat) -> Option<(Map<int, int>, Seq<int>)>
    decreases n,
{
    if n == 0 {
        Some((Map::<int, int>::empty(), Seq::<int>::empty()))
    } else {
        match scan_prefix(prog, (n - 1) as nat) {
            None => None,
            Some((jt, stk)) => scan_step(jt, stk, prog[n - 1], n - 1),
        }
    }
}

/// The loop-pairing scan over the whole program.
pub open spec fn scan(prog: Seq<Opcode>) -> Option<(Map<int, int>, Seq<int>)> {
    scan_prefix(prog, prog.len())
}

/// What the loop-pairing scan guarantees of its partial results: partners
/// are mutual, a loop-open is paired forward with a loop-close and a
/// loop-close backward with a loop-open, the open stack holds unpaired
/// loop-opens, and every loop boundary already read is paired or still open.
pub open spec fn scan_pairs_ok(
    prog: Seq<Opcode>,
    n: nat,
    jt: Map<int, int>,
    stk: Seq<int>,
) -> bool {
    &&& forall|i: int|
        #[trigger] jt.contains_key(i) ==> 0 <= i < n && 0 <= jt[i] < n && jt.contains_key(jt[i])
            && jt[jt[i]] == i && ((prog[i] is LSB && prog[jt[i]] is RSB && i < jt[i]) || (prog[i]
            is RSB && prog[jt[i]] is LSB && jt[i] < i))
    &&& forall|k: int|
        0 <= k < stk.len() ==> 0 <= #[trigger] stk[k] < n && prog[stk[k]] is LSB
            && !jt.contains_key(stk[k])
    &&& forall|i: int|
        0 <= i < n && #[trigger] is_loop_op(prog[i]) ==> jt.contains_key(i) || stk.contains(i)
    &&& forall|k1: int, k2: int|
        0 <= k1 < k2 < stk.len() ==> #[trigger] stk[k1] < #[trigger] stk[k2]
}

/// The loop-pairing scan only ever produces partial results that satisfy
/// `scan_pairs_ok`.
pub proof fn lemma_scan_pairs(prog: Seq<Opcode>, n: nat)
    requires
        n <= prog.len(),
    ensures
        scan_prefix(prog, n) matches Some((jt, stk)) ==> scan_pairs_ok(prog, n, jt, stk),
    decreases n,
{
    if n > 0 {
        lemma_scan_pairs(prog, (n - 1) as nat);
        match scan_prefix(prog, (n - 1) as nat) {
            None => {},
            Some((jt, stk)) => {
                match scan_step(jt, stk, prog[n - 1], n - 1) {
                    None => {},
                    Some((jt2, stk2)) => {
                        if prog[n - 1] is LSB {
                            assert(stk2 == stk.push(n - 1));
                            assert forall|i: int|
                                0 <= i < n && is_loop_op(prog[i]) implies jt2.contains_key(i)
                                || stk2.contains(i) by {
                                if i < n - 1 {
                                    assert(jt.contains_key(i) || stk.contains(i));
                                    if stk.contains(i) {
                                        let k = choose|k: int|
                                            0 <= k < stk.len() && stk[k] == i;
                                        assert(stk2[k] == i);
                                    }
                                } else {
                                    assert(stk2.last() == i);
                                }
                            }
                        } else if prog[n - 1] is RSB {
                            let j = stk.last();
                            assert(prog[j] is LSB && 0 <= j < n - 1 && !jt.contains_key(j));
                            assert(jt2 == jt.insert(j, n - 1).insert(n - 1, j));
                            assert(jt2[j] == n - 1 && jt2[n - 1] == j);
                            assert forall|i: int| #[trigger] jt2.contains_key(i) implies 0 <= i < n
                                && 0 <= jt2[i] < n && jt2.contains_key(jt2[i]) && jt2[jt2[i]] == i
                                && ((prog[i] is LSB && prog[jt2[i]] is RSB && i < jt2[i]) || (
                            prog[i] is RSB && prog[jt2[i]] is LSB && jt2[i] < i)) by {
                                if i == j || i == n - 1 {
                                } else {
                                    assert(jt.contains_key(i));
                                    assert(jt.contains_key(jt[i]));
                                    assert(jt[i] != j && jt[i] != n - 1);
                                    assert(jt2[i] == jt[i]);
                                    assert(jt2[jt[i]] == jt[jt[i]]);
                                }
                            }
                            assert forall|k: int| 0 <= k < stk2.len() implies 0 <= #[trigger] stk2[k]
                                < n && prog[stk2[k]] is LSB && !jt2.contains_key(stk2[k]) by {
                                assert(stk2[k] == stk[k]);
                                assert(stk[k] < stk.last());
                                assert(stk[k] != j && stk[k] != n - 1);
                            }
                            assert forall|i: int|
                                0 <= i < n && is_loop_op(prog[i]) implies jt2.contains_key(i)
                                || stk2.contains(i) by {
                                if i < n - 1 {
                                    assert(jt.contains_key(i) || stk.contains(i));
                                    if !jt.contains_key(i) {
                                        let k = choose|k: int|
                                            0 <= k < stk.len() && stk[k] == i;
                                        if k < stk.len() - 1 {
                                            assert(stk2[k] == i);
                                        } else {
                                            assert(i == j);
                                        }
                                    }
                                }
                            }
                        } else {
                            assert forall|i: int|
                                0 <= i < n && is_loop_op(prog[i]) implies jt2.contains_key(i)
                                || stk2.contains(i) by {
                                if i < n - 1 {
                                    assert(jt.contains_key(i) || stk.contains(i));
                                }
                            }
                        }
                    },
                }
            },
        }
    }
}

/// Once the loop-pairing scan has failed on a prefix, it fails on the whole
/// program.
proof fn lemma_scan_none_extends(prog: Seq<Opcode>, n: nat)
    requires
        n <= prog.len(),
        scan_prefix(prog, n) is None,
    ensures
        scan(prog) is None,
    decreases prog.len() - n,
{
    if n < prog.len() {
        lemma_scan_none_extends(prog, n + 1);
    }
}

/// One step of the machine over the symbolic program, with the partner map
/// of the loop-pairing scan. The pointer stops at cell zero when moving
/// left, and the tape grows by a zeroed cell when moving right past its end.
pub open spec fn p_step(
    prog: Seq<Opcode>,
    jt: Map<int, int>,
    input: Seq<u8>,
    st: MachineState,
) -> StepResult {
    if st.pc >= prog.len() {
        StepResult::Halt
    } else {
        match prog[st.pc as int] {
            Opcode::SHL => StepResult::Next(
                MachineState {
                    tape: st.tape,
                    ptr: move_left(st.ptr, 1),
                    pc: st.pc + 1,
                    read: st.read,
                    out: st.out,
                },
            ),
            Opcode::SHR => StepResult::Next(
                MachineState {
                    tape: pad_to(st.tape, st.ptr + 2),
                    ptr: st.ptr + 1,
                    pc: st.pc + 1,
                    read: st.read,
                    out: st.out,
                },
            ),
            Opcode::ADD => StepResult::Next(
                MachineState {
                    tape: st.tape.update(st.ptr as int, cell_inc(st.tape[st.ptr as int], 1)),
                    ptr: st.ptr,
                    pc: st.pc + 1,
                    read: st.read,
                    out: st.out,
                },
            ),
            Opcode::SUB => StepResult::Next(
                MachineState {
                    tape: st.tape.update(st.ptr as int, cell_dec(st.tape[st.ptr as int], 1)),
                    ptr: st.ptr,
                    pc: st.pc + 1,
                    read: st.read,
                    out: st.out,
                },
            ),
            Opcode::LSB => StepResult::Next(
                MachineState {
                    tape: st.tape,
                    ptr: st.ptr,
                    pc: if st.tape[st.ptr as int] == 0 {
                        (jt[st.pc as int] + 1) as nat
                    } else {
                        st.pc + 1
                    },
                    read: st.read,
                    out: st.out,
                },
            ),
            Opcode::RSB => StepResult::Next(
                MachineState {
                    tape: st.tape,
                    ptr: st.ptr,
                    pc: if st.tape[st.ptr as int] != 0 {
                        (jt[st.pc as int] + 1) as nat
                    } else {
                        st.pc + 1
                    },
                    read: st.read,
                    out: st.out,
                },
            ),
            Opcode::GETCHAR => if st.read < input.len() {
                StepResult::Next(
                    MachineState {
                        tape: st.tape.update(st.ptr as int, input[st.read as int]),
                        ptr: st.ptr,
                        pc: st.pc + 1,
                        read: st.read + 1,
                        out: st.out,
                    },
                )
            } else {
                StepResult::NoInput
            },
            Opcode::PUTCHAR => StepResult::Next(
                MachineState {
                    tape: st.tape,
                    ptr: st.ptr,
                    pc: st.pc + 1,
                    read: st.read,
                    out: st.out.push(st.tape[st.ptr as int]),
                },
            ),
        }
    }
}

/// Where the machine stands after executing at most `n` instructions of the
/// symbolic program from `st`.
pub open spec fn p_run(
    prog: Seq<Opcode>,
    jt: Map<int, int>,
    input: Seq<u8>,
    st: MachineState,
    n: nat,
) -> Outcome
    decreases n,
{
    if st.pc >= prog.len() {
        Outcome::Halted(st)
    } else if n == 0 {
        Outcome::Running(st)
    } else {
        match p_step(prog, jt, input, st) {
            StepResult::Next(next) => p_run(prog, jt, input, next, (n - 1) as nat),
            StepResult::Halt => Outcome::Halted(st),
            StepResult::NoInput => Outcome::Failed(st),
        }
    }
}

/// A symbolic program with its jump table, ready to execute.
struct Code {
    opcodes: Vec<Opcode>,
    jump_table: Vec<usize>,
}

/// Whether the executable jump table agrees with the partner map on every
/// matched loop boundary, with every entry inside the program.
spec fn table_matches(jt: Map<int, int>, tbl: Seq<usize>, n: int) -> bool {
    &&& tbl.len() == n
    &&& forall|i: int| jt.contains_key(i) ==> 0 <= i < n && #[trigger] tbl[i] == jt[i]
}

impl Opcode {
    /// Reads one instruction byte.
    fn from_byte(u: u8) -> (r: Opcode)
        requires
            is_instruction_byte(u),
        ensures
            r == opcode_of(u),
    {
        if u == OPCODE_SHL {
            Opcode::SHL
        } else if u == OPCODE_SHR {
            Opcode::SHR
        } else if u == OPCODE_ADD {
            Opcode::ADD
        } else if u == OPCODE_SUB {
            Opcode::SUB
        } else if u == OPCODE_LSB {
            Opcode::LSB
        } else if u == OPCODE_RSB {
            Opcode::RSB
        } else if u == OPCODE_GETCHAR {
            Opcode::GETCHAR
        } else {
            Opcode::PUTCHAR
        }
    }
}

impl Code {
    /// Filters `data` to its symbolic program and pairs every loop-open
    /// with its loop-close; the malformed-program errors are exactly those
    /// of the pairing scan.
    fn from(data: Vec<u8>) -> (r: Result<Code, Error>)
        ensures
            ({
                let prog = program_of(data@);
                match scan(prog) {
                    None => r == Err::<Code, Error>(Error::UnmatchedLoopClose),
                    Some((jt, stk)) => if stk.len() == 0 {
                        &&& r is Ok
                        &&& r->Ok_0.opcodes@ == prog
                        &&& table_matches(jt, r->Ok_0.jump_table@, prog.len() as int)
                    } else {
                        r == Err::<Code, Error>(Error::UnmatchedLoopOpen)
                    },
                }
            }),
    {
        let mut opcodes: Vec<Opcode> = Vec::new();
        let data_len = data.len();
        let mut idx: usize = 0;
        while idx < data_len
            invariant
                data_len == data@.len(),
                idx <= data_len,
                opcodes@ == program_of(data@.take(idx as int)),
            decreases data_len - idx,
        {
            let u = data[idx];
            let ghost prev = data@.take(idx as int);
            let ghost curr = data@.take(idx + 1 as int);
            proof {
                assert(curr.drop_last() =~= prev);
                assert(curr.last() == data@[idx as int]);
                if is_instruction_byte(u) {
                    let f = filter_instructions(prev);
                    assert(filter_instructions(curr) == f.push(u));
                    assert(filter_instructions(curr).map(|i: int, b: u8| opcode_of(b)) =~= f.map(
                        |i: int, b: u8| opcode_of(b),
                    ).push(opcode_of(u)));
                } else {
                    assert(filter_instructions(curr) == filter_instructions(prev));
                }
            }
            if is_instruction(u) {
                opcodes.push(Opcode::from_byte(u));
            }
            idx = idx + 1;
        }
        proof {
            assert(data@.take(data_len as int) =~= data@);
        }
        let n = opcodes.len();
        let mut jump_table: Vec<usize> = Vec::new();
        while jump_table.len() < n
            invariant
                jump_table@.len() <= n,
            decreases n - jump_table@.len(),
        {
            jump_table.push(0);
        }
        let mut stack: Vec<usize> = Vec::new();
        let mut i: usize = 0;
        while i < n
            invariant
                n == opcodes@.len(),
                opcodes@ == program_of(data@),
                i <= n,
                jump_table@.len() == n,
                scan_prefix(opcodes@, i as nat) is Some,
                scan_prefix(opcodes@, i as nat)->Some_0.1 == stack@.map_values(
                    |p: usize| p as int,
                ),
                table_matches(scan_prefix(opcodes@, i as nat)->Some_0.0, jump_table@, n as int),
            decreases n - i,
        {
            let ghost jt = scan_prefix(opcodes@, i as nat)->Some_0.0;
            let ghost stk = scan_prefix(opcodes@, i as nat)->Some_0.1;
            proof {
                lemma_scan_pairs(opcodes@, i as nat);
                assert(scan_prefix(opcodes@, (i + 1) as nat) == scan_step(
                    jt,
                    stk,
                    opcodes@[i as int],
                    i as int,
                ));
            }
            let op = opcodes[i];
            if let Opcode::LSB = op {
                stack.push(i);
                proof {
                    assert(stack@.map_values(|p: usize| p as int) =~= stk.push(i as int));
                }
            } else if let Opcode::RSB = op {
                if stack.len() == 0 {
                    proof {
                        assert(stk.len() == 0);
                        lemma_scan_none_extends(opcodes@, (i + 1) as nat);
                    }
                    return Err(Error::UnmatchedLoopClose);
                }
                let j = stack[stack.len() - 1];
                proof {
                    assert(stk[stk.len() - 1] == stack@[stack@.len() - 1] as int);
                    assert(stk.last() == j as int);
                    assert(0 <= j < i);
                    assert(!jt.contains_key(j as int));
                    assert(!jt.contains_key(i as int));
                }
                stack.pop();
                jump_table[j] = i;
                jump_table[i] = j;
                proof {
                    assert(stack@.map_values(|p: usize| p as int) =~= stk.drop_last());
                    let jt2 = jt.insert(j as int, i as int).insert(i as int, j as int);
                    assert(scan_prefix(opcodes@, (i + 1) as nat)->Some_0.0 == jt2);
                    assert forall|k: int| jt2.contains_key(k) implies 0 <= k < n
                        && #[trigger] jump_table@[k] == jt2[k] by {
                        if k != i as int && k != j as int {
                            assert(jt.contains_key(k));
                        }
                    }
                }
            }
            i = i + 1;
        }
        if stack.len() > 0 {
            return Err(Error::UnmatchedLoopOpen);
        }
        Ok(Code { opcodes, jump_table })
    }
}

/// The baseline interpreter; it owns the tape, which persists from run to
/// run and always holds at least one cell.
pub struct Interpreter {
    stack: Vec<u8>,
}

impl View for Interpreter {
    type V = Seq<u8>;

    closed spec fn view(&self) -> Seq<u8> {
        self.stack@
    }
}

impl Interpreter {
    /// The tape always holds at least one cell, so that the cell under a
    /// fresh pointer exists.
    pub open spec fn wf(&self) -> bool {
        self@.len() >= 1
    }

    /// The tape as it stands after the last run.
    pub fn tape(&self) -> (r: &Vec<u8>)
        ensures
            r@ == self@,
    {
        &self.stack
    }

    /// Filters `data` to its symbolic program, pairs its loops, and
    /// executes it one instruction at a time over this interpreter's tape,
    /// reading from `input` and returning the output, within a budget of
    /// `max_steps` instructions.
    ///
    /// The result and the tape afterwards are exactly what the small-step
    /// semantics `p_run` reaches from a fresh pointer on the old tape.
    pub fn run(&mut self, data: Vec<u8>, input: &Vec<u8>, max_steps: u64) -> (r: Result<
        Vec<u8>,
        Error,
    >)
        requires
            old(self).wf(),
        ensures
            final(self).wf(),
            ({
                let prog = program_of(data@);
                match scan(prog) {
                    None => r == Err::<Vec<u8>, Error>(Error::UnmatchedLoopClose) && final(self)@
                        == old(self)@,
                    Some((jt, stk)) => if stk.len() > 0 {
                        r == Err::<Vec<u8>, Error>(Error::UnmatchedLoopOpen) && final(self)@ == old(
                            self,
                        )@
                    } else {
                        let init = (MachineState {
                            tape: old(self)@,
                            ptr: 0,
                            pc: 0,
                            read: 0,
                            out: Seq::<u8>::empty(),
                        });
                        match p_run(prog, jt, input@, init, max_steps as nat) {
                            Outcome::Halted(s) => r is Ok && r->Ok_0@ == s.out && final(self)@
                                == s.tape,
                            Outcome::Failed(s) => r == Err::<Vec<u8>, Error>(Error::InputExhausted)
                                && final(self)@ == s.tape,
                            Outcome::Running(s) => r == Err::<Vec<u8>, Error>(
                                Error::StepLimitExceeded,
                            ) && final(self)@ == s.tape,
                        }
                    },
                }
            }),
    {
        let code = match Code::from(data) {
            Ok(c) => c,
            Err(e) => {
                return Err(e);
            },
        };
        let prog = code.opcodes;
        let jump_table = code.jump_table;
        let prog_len = prog.len();
        let ghost jt = scan(prog@)->Some_0.0;
        proof {
            lemma_scan_pairs(prog@, prog@.len());
        }
        let ghost init = (MachineState {
            tape: self.stack@,
            ptr: 0,
            pc: 0,
            read: 0,
            out: Seq::<u8>::empty(),
        });
        let mut pc: usize = 0;
        let mut ptr: usize = 0;
        let mut read: usize = 0;
        let mut out: Vec<u8> = Vec::new();
        let mut steps: u64 = 0;
        while pc < prog_len && steps < max_steps
            invariant
                prog_len == prog@.len(),
                prog@ == program_of(data@),
                scan(prog@) is Some,
                jt == scan(prog@)->Some_0.0,
                scan(prog@)->Some_0.1.len() == 0,
                scan_pairs_ok(prog@, prog@.len(), jt, scan(prog@)->Some_0.1),
                table_matches(jt, jump_table@, prog_len as int),
                init == (MachineState {
                    tape: old(self)@,
                    ptr: 0,
                    pc: 0,
                    read: 0,
                    out: Seq::<u8>::empty(),
                }),
                ptr < self.stack@.len(),
                read <= input@.len(),
                steps <= max_steps,
                p_run(prog@, jt, input@, init, max_steps as nat) == p_run(
                    prog@,
                    jt,
                    input@,
                    (MachineState {
                        tape: self.stack@,
                        ptr: ptr as nat,
                        pc: pc as nat,
                        read: read as nat,
                        out: out@,
                    }),
                    (max_steps - steps) as nat,
                ),
            decreases max_steps - steps,
        {
            let ghost cur = (MachineState {
                tape: self.stack@,
                ptr: ptr as nat,
                pc: pc as nat,
                read: read as nat,
                out: out@,
            });
            let op = prog[pc];
            match op {
                Opcode::SHL => {
                    if ptr > 0 {
                        ptr = ptr - 1;
                    }
                    pc = pc + 1;
                },
                Opcode::SHR => {
                    let cap = self.stack.len();
                    ptr = ptr + 1;
                    if ptr == cap {
                        self.stack.push(0);
                        proof {
                            assert(self.stack@ =~= pad_to(cur.tape, cur.ptr + 2));
                        }
                    } else {
                        proof {
                            assert(self.stack@ =~= pad_to(cur.tape, cur.ptr + 2));
                        }
                    }
                    pc = pc + 1;
                },
                Opcode::ADD => {
                    let c = self.stack[ptr];
                    self.stack[ptr] = c.wrapping_add(1);
                    proof {
                        assert(c.wrapping_add(1) == cell_inc(c, 1));
                    }
                    pc = pc + 1;
                },
                Opcode::SUB => {
                    let c = self.stack[ptr];
                    self.stack[ptr] = c.wrapping_sub(1);
                    proof {
                        assert(c.wrapping_sub(1) == cell_dec(c, 1));
                    }
                    pc = pc + 1;
                },
                Opcode::LSB => {
                    proof {
                        assert(is_loop_op(prog@[pc as int]));
                        assert(jt.contains_key(pc as int));
                        assert(0 <= jt[pc as int] < prog@.len());
                        assert(jump_table@[pc as int] == jt[pc as int]);
                    }
                    if self.stack[ptr] == 0 {
                        pc = jump_table[pc] + 1;
                    } else {
                        pc = pc + 1;
                    }
                },
                Opcode::RSB => {
                    proof {
                        assert(is_loop_op(prog@[pc as int]));
                        assert(jt.contains_key(pc as int));
                        assert(0 <= jt[pc as int] < prog@.len());
                        assert(jump_table@[pc as int] == jt[pc as int]);
                    }
                    if self.stack[ptr] != 0 {
                        pc = jump_table[pc] + 1;
                    } else {
                        pc = pc + 1;
                    }
                },
                Opcode::GETCHAR => {
                    if read < input.len() {
                        self.stack[ptr] = input[read];
                        read = read + 1;
                        pc = pc + 1;
                    } else {
                        proof {
                            assert(p_step(prog@, jt, input@, cur) is NoInput);
                            assert(p_run(prog@, jt, input@, cur, (max_steps - steps) as nat)
                                == Outcome::Failed(cur));
                        }
                        return Err(Error::InputExhausted);
                    }
                },
                Opcode::PUTCHAR => {
                    out.push(self.stack[ptr]);
                    pc = pc + 1;
                },
            }
            proof {
                let next = (MachineState {
                    tape: self.stack@,
                    ptr: ptr as nat,
                    pc: pc as nat,
                    read: read as nat,
                    out: out@,
                });
                assert(p_step(prog@, jt, input@, cur) == StepResult::Next(next));
                assert(p_run(prog@, jt, input@, cur, (max_steps - steps) as nat) == p_run(
                    prog@,
                    jt,
                    input@,
                    next,
                    (max_steps - steps - 1) as nat,
                ));
            }
            steps = steps + 1;
        }
        let ghost fin = (MachineState {
            tape: self.stack@,
            ptr: ptr as nat,
            pc: pc as nat,
            read: read as nat,
            out: out@,
        });
        if pc >= prog_len {
            proof {
                assert(p_run(prog@, jt, input@, fin, (max_steps - steps) as nat)
                    == Outcome::Halted(fin));
            }
            Ok(out)
        } else {
            proof {
                assert((max_steps - steps) as nat == 0);
                assert(p_run(prog@, jt, input@, fin, 0) == Outcome::Running(fin));
            }
            Err(Error::StepLimitExceeded)
        }
    }
}

impl Default for Interpreter {
    /// A fresh interpreter: one zeroed cell on the tape.
    fn default() -> (r: Self)
        ensures
            r@ == seq![0u8],
            r.wf(),
    {
        Interpreter { stack: vec![0] }
    }
}

} // verus!
