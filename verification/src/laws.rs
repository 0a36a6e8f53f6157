//! The laws the engine obeys, stated once over the machine model and proved
//! for all inputs: run-length merging is observationally transparent, cell
//! arithmetic wraps modulo 256, moving left at cell zero is a no-op, and a
//! loop's guard cell decides whether its body runs.

use vstd::prelude::*;

use vstd::arithmetic::div_mod::lemma_add_mod_noop;
use vstd::arithmetic::div_mod::lemma_add_mod_noop_right;
use vstd::arithmetic::div_mod::lemma_mod_add_multiples_vanish;
use vstd::arithmetic::div_mod::lemma_small_mod;
use vstd::arithmetic::div_mod::lemma_sub_mod_noop;
use vstd::arithmetic::div_mod::lemma_sub_mod_noop_right;

use crate::interpreter::Opcode;
use crate::interpreter_it::it_run;
use crate::interpreter_it::it_step;
use crate::jit::ItOpcode;
use crate::jit::build_ir;
use crate::jit::lemma_build_ir_pairs;
use crate::interpreter::is_loop_op;
use crate::interpreter::lemma_scan_pairs;
use crate::interpreter::p_run;
use crate::interpreter::p_step;
use crate::interpreter::scan;
use crate::machine::MachineState;
use crate::machine::StepResult;
use crate::machine::cell_dec;
use crate::machine::cell_inc;
use crate::machine::move_left;
use crate::machine::pad_to;

verus! {

/// The pointer after `n` unmerged single moves left, each stopping at cell
/// zero.
pub open spec fn move_left_units(p: nat, n: nat) -> nat
    decreases n,
{
    if n == 0 {
        p
    } else {
        move_left(move_left_units(p, (n - 1) as nat), 1)
    }
}

/// Merging moves left is transparent: one counted move by `n` leaves the
/// pointer exactly where `n` unmerged single moves leave it.
pub proof fn lemma_merged_move_left(p: nat, n: nat)
    ensures
        move_left(p, n) == move_left_units(p, n),
    decreases n,
{
    if n > 0 {
        lemma_merged_move_left(p, (n - 1) as nat);
    }
}

/// The tape and pointer after `n` unmerged single moves right, each growing
/// the tape by one zeroed cell when it steps past the end.
pub open spec fn move_right_units(t: Seq<u8>, p: nat, n: nat) -> (Seq<u8>, nat)
    decreases n,
{
    if n == 0 {
        (t, p)
    } else {
        let prev = move_right_units(t, p, (n - 1) as nat);
        (pad_to(prev.0, prev.1 + 2), prev.1 + 1)
    }
}

/// Merging moves right is transparent: one counted move by `n` leaves the
/// pointer and the grown tape exactly where `n` unmerged single moves leave
/// them.
pub proof fn lemma_merged_move_right(t: Seq<u8>, p: nat, n: nat)
    requires
        p < t.len(),
    ensures
        move_right_units(t, p, n).1 == p + n,
        move_right_units(t, p, n).0 == pad_to(t, p + n + 1),
    decreases n,
{
    if n == 0 {
        assert(pad_to(t, p + 1) =~= t);
    } else {
        lemma_merged_move_right(t, p, (n - 1) as nat);
        assert(pad_to(pad_to(t, p + n), p + n + 1) =~= pad_to(t, p + n + 1));
    }
}

/// A cell after `n` unmerged single increments.
pub open spec fn cell_inc_units(c: u8, n: nat) -> u8
    decreases n,
{
    if n == 0 {
        c
    } else {
        cell_inc(cell_inc_units(c, (n - 1) as nat), 1)
    }
}

/// A cell after `n` unmerged single decrements.
pub open spec fn cell_dec_units(c: u8, n: nat) -> u8
    decreases n,
{
    if n == 0 {
        c
    } else {
        cell_dec(cell_dec_units(c, (n - 1) as nat), 1)
    }
}

/// `n` single increments land on the sum modulo 256.
proof fn lemma_cell_inc_units_exact(c: u8, n: nat)
    ensures
        cell_inc_units(c, n) == ((c + n) % 256) as u8,
    decreases n,
{
    if n == 0 {
        lemma_small_mod(c as nat, 256);
    } else {
        lemma_cell_inc_units_exact(c, (n - 1) as nat);
        lemma_add_mod_noop(c + n - 1, 1, 256);
        lemma_small_mod(1, 256);
    }
}

/// `n` single decrements land on the difference modulo 256.
proof fn lemma_cell_dec_units_exact(c: u8, n: nat)
    ensures
        cell_dec_units(c, n) == ((c - n) % 256) as u8,
    decreases n,
{
    if n == 0 {
        lemma_small_mod(c as nat, 256);
    } else {
        lemma_cell_dec_units_exact(c, (n - 1) as nat);
        let prev = (c - (n - 1)) % 256;
        assert(cell_dec(prev as u8, 1) == ((prev + 256 - 1) % 256) as u8);
        lemma_mod_add_multiples_vanish(prev - 1, 256);
        lemma_sub_mod_noop(c - (n - 1), 1, 256);
        lemma_small_mod(1, 256);
    }
}

/// Merging increments is transparent: one counted increment whose count
/// wrapped modulo the cell width leaves the cell exactly where `n` unmerged
/// single increments leave it.
pub proof fn lemma_merged_cell_inc(c: u8, n: nat)
    ensures
        cell_inc(c, (n % 256) as u8) == cell_inc_units(c, n),
{
    lemma_cell_inc_units_exact(c, n);
    lemma_add_mod_noop_right(c as int, n as int, 256);
}

/// Merging decrements is transparent: one counted decrement whose count
/// wrapped modulo the cell width leaves the cell exactly where `n` unmerged
/// single decrements leave it.
pub proof fn lemma_merged_cell_dec(c: u8, n: nat)
    ensures
        cell_dec(c, (n % 256) as u8) == cell_dec_units(c, n),
{
    lemma_cell_dec_units_exact(c, n);
    assert(cell_dec(c, (n % 256) as u8) == ((c + 256 - n % 256) % 256) as u8);
    lemma_mod_add_multiples_vanish(c - n % 256, 256);
    lemma_sub_mod_noop_right(c as int, n as int, 256);
}

/// One more increment after a counted increment equals the counted
/// increment with the count one higher, wrapped modulo the cell width.
pub proof fn lemma_cell_chain_inc(x: u8, c: u8)
    ensures
        cell_inc(cell_inc(x, c), 1) == cell_inc(x, ((c + 1) % 256) as u8),
{
    lemma_add_mod_noop(x + c, 1, 256);
    lemma_small_mod(1, 256);
    lemma_add_mod_noop_right(x as int, c + 1, 256);
}

/// One more decrement after a counted decrement equals the counted
/// decrement with the count one higher, wrapped modulo the cell width.
pub proof fn lemma_cell_chain_dec(x: u8, c: u8)
    ensures
        cell_dec(cell_dec(x, c), 1) == cell_dec(x, ((c + 1) % 256) as u8),
{
    lemma_mod_add_multiples_vanish(x - c, 256);
    let p = (x - c) % 256;
    lemma_mod_add_multiples_vanish(p - 1, 256);
    lemma_sub_mod_noop(x - c, 1, 256);
    lemma_small_mod(1, 256);
    lemma_mod_add_multiples_vanish(x - (c + 1) % 256, 256);
    lemma_sub_mod_noop_right(x as int, c + 1, 256);
    lemma_small_mod(p as nat, 256);
}

/// A settled outcome of the merged machine does not change when the step
/// budget grows: once a run halts or fails within some budget, every
/// larger budget yields the very same outcome.
pub proof fn lemma_it_run_budget_monotonic(
    prog: Seq<ItOpcode>,
    input: Seq<u8>,
    st: MachineState,
    n: nat,
    m: nat,
)
    requires
        n <= m,
        !(it_run(prog, input, st, n) is Running),
    ensures
        it_run(prog, input, st, m) == it_run(prog, input, st, n),
    decreases n,
{
    if st.pc < prog.len() {
        match it_step(prog, input, st) {
            StepResult::Next(next) => {
                lemma_it_run_budget_monotonic(prog, input, next, (n - 1) as nat, (m - 1) as nat);
            },
            StepResult::Halt => {},
            StepResult::NoInput => {},
        }
    }
}

/// A settled outcome of the baseline machine does not change when the step
/// budget grows: once a run halts or fails within some budget, every
/// larger budget yields the very same outcome.
pub proof fn lemma_p_run_budget_monotonic(
    prog: Seq<Opcode>,
    jt: Map<int, int>,
    input: Seq<u8>,
    st: MachineState,
    n: nat,
    m: nat,
)
    requires
        n <= m,
        !(p_run(prog, jt, input, st, n) is Running),
    ensures
        p_run(prog, jt, input, st, m) == p_run(prog, jt, input, st, n),
    decreases n,
{
    if st.pc < prog.len() {
        match p_step(prog, jt, input, st) {
            StepResult::Next(next) => {
                lemma_p_run_budget_monotonic(prog, jt, input, next, (n - 1) as nat, (m - 1) as nat);
            },
            StepResult::Halt => {},
            StepResult::NoInput => {},
        }
    }
}

/// Cell arithmetic wraps modulo 256: a cell lands on its value plus or
/// minus the count, modulo 256; incrementing a cell at 255 yields 0 and
/// decrementing a cell at 0 yields 255.
pub proof fn lemma_cell_arithmetic_wraps(c: u8, v: u8)
    ensures
        cell_inc(c, v) == ((c + v) % 256) as u8,
        cell_dec(c, v) == ((c - v) % 256) as u8,
        cell_inc(255, 1) == 0,
        cell_dec(0, 1) == 255,
{
    lemma_mod_add_multiples_vanish(c - v, 256);
}

/// Moving left never takes the pointer past cell zero, however large the
/// count: at cell zero it is a no-op.
pub proof fn lemma_move_left_at_cell_zero(n: nat)
    ensures
        move_left(0, n) == 0,
{
}

/// In the baseline machine, a move-left instruction with the pointer at
/// cell zero changes nothing but the program counter.
pub proof fn lemma_step_move_left_at_zero(
    prog: Seq<Opcode>,
    jt: Map<int, int>,
    input: Seq<u8>,
    st: MachineState,
)
    requires
        st.pc < prog.len(),
        prog[st.pc as int] is SHL,
        st.ptr == 0,
    ensures
        p_step(prog, jt, input, st) == StepResult::Next(
            MachineState {
                tape: st.tape,
                ptr: st.ptr,
                pc: st.pc + 1,
                read: st.read,
                out: st.out,
            },
        ),
{
}

/// A loop whose guard cell is zero on entry executes its body zero times:
/// the step at the loop-open lands just past the matching loop-close, and
/// the tape, pointer, input position and output are untouched.
pub proof fn lemma_loop_zero_guard_skips_body(
    prog: Seq<Opcode>,
    jt: Map<int, int>,
    input: Seq<u8>,
    st: MachineState,
)
    requires
        scan(prog) is Some,
        scan(prog)->Some_0.0 == jt,
        scan(prog)->Some_0.1.len() == 0,
        st.pc < prog.len(),
        prog[st.pc as int] is LSB,
        st.ptr < st.tape.len(),
        st.tape[st.ptr as int] == 0,
    ensures
        jt.contains_key(st.pc as int),
        st.pc < jt[st.pc as int] < prog.len(),
        prog[jt[st.pc as int]] is RSB,
        p_step(prog, jt, input, st) == StepResult::Next(
            MachineState {
                tape: st.tape,
                ptr: st.ptr,
                pc: (jt[st.pc as int] + 1) as nat,
                read: st.read,
                out: st.out,
            },
        ),
{
    lemma_scan_pairs(prog, prog.len());
    assert(is_loop_op(prog[st.pc as int]));
}

/// A loop whose guard cell is nonzero on entry runs its body: the step at
/// the loop-open moves to the first instruction of the body.
pub proof fn lemma_loop_nonzero_guard_enters_body(
    prog: Seq<Opcode>,
    jt: Map<int, int>,
    input: Seq<u8>,
    st: MachineState,
)
    requires
        st.pc < prog.len(),
        prog[st.pc as int] is LSB,
        st.ptr < st.tape.len(),
        st.tape[st.ptr as int] != 0,
    ensures
        p_step(prog, jt, input, st) == StepResult::Next(
            MachineState {
                tape: st.tape,
                ptr: st.ptr,
                pc: st.pc + 1,
                read: st.read,
                out: st.out,
            },
        ),
{
}

/// In the merged machine, a loop whose guard cell is zero on entry
/// executes its body zero times: the step at the loop-open lands on the
/// matching loop-close, and the step there, with the same zero guard,
/// leaves the loop; the tape, pointer, input position and output are
/// untouched throughout.
pub proof fn lemma_it_loop_zero_guard_skips_body(f: Seq<u8>, input: Seq<u8>, st: MachineState)
    requires
        f.len() <= 0xffff_ffff,
        build_ir(f) is Some,
        build_ir(f)->Some_0.1.len() == 0,
        st.pc < build_ir(f)->Some_0.0.len(),
        build_ir(f)->Some_0.0[st.pc as int] is LSB,
        st.ptr < st.tape.len(),
        st.tape[st.ptr as int] == 0,
    ensures
        ({
            let ops = build_ir(f)->Some_0.0;
            let close = ops[st.pc as int]->LSB_0 + 1;
            &&& st.pc < close < ops.len()
            &&& ops[close as int] is RSB
            &&& ops[close as int]->RSB_0 == st.pc
            &&& it_step(ops, input, st) == StepResult::Next(
                MachineState {
                    tape: st.tape,
                    ptr: st.ptr,
                    pc: close as nat,
                    read: st.read,
                    out: st.out,
                },
            )
            &&& it_step(
                ops,
                input,
                MachineState {
                    tape: st.tape,
                    ptr: st.ptr,
                    pc: close as nat,
                    read: st.read,
                    out: st.out,
                },
            ) == StepResult::Next(
                MachineState {
                    tape: st.tape,
                    ptr: st.ptr,
                    pc: (close + 1) as nat,
                    read: st.read,
                    out: st.out,
                },
            )
        }),
{
    lemma_build_ir_pairs(f);
    let ops = build_ir(f)->Some_0.0;
    let stk = build_ir(f)->Some_0.1;
    assert(!stk.contains(st.pc as int));
}

/// In the merged machine, at a loop-close the guard cell decides: while it
/// reads nonzero the step lands just past the matching loop-open, running
/// the body again; once it reads zero the step leaves the loop.
pub proof fn lemma_it_loop_close_guard(f: Seq<u8>, input: Seq<u8>, st: MachineState)
    requires
        f.len() <= 0xffff_ffff,
        build_ir(f) is Some,
        build_ir(f)->Some_0.1.len() == 0,
        st.pc < build_ir(f)->Some_0.0.len(),
        build_ir(f)->Some_0.0[st.pc as int] is RSB,
        st.ptr < st.tape.len(),
    ensures
        ({
            let ops = build_ir(f)->Some_0.0;
            let open = ops[st.pc as int]->RSB_0 as int;
            &&& 0 <= open < st.pc
            &&& ops[open] is LSB
            &&& st.tape[st.ptr as int] != 0 ==> it_step(ops, input, st) == StepResult::Next(
                MachineState {
                    tape: st.tape,
                    ptr: st.ptr,
                    pc: (open + 1) as nat,
                    read: st.read,
                    out: st.out,
                },
            )
            &&& st.tape[st.ptr as int] == 0 ==> it_step(ops, input, st) == StepResult::Next(
                MachineState {
                    tape: st.tape,
                    ptr: st.ptr,
                    pc: st.pc + 1,
                    read: st.read,
                    out: st.out,
                },
            )
        }),
{
    lemma_build_ir_pairs(f);
}

/// At a loop-close the guard cell decides: while it reads nonzero the step
/// lands just past the matching loop-open, running the body again; once it
/// reads zero the step leaves the loop.
pub proof fn lemma_loop_close_guard(
    prog: Seq<Opcode>,
    jt: Map<int, int>,
    input: Seq<u8>,
    st: MachineState,
)
    requires
        scan(prog) is Some,
        scan(prog)->Some_0.0 == jt,
        scan(prog)->Some_0.1.len() == 0,
        st.pc < prog.len(),
        prog[st.pc as int] is RSB,
        st.ptr < st.tape.len(),
    ensures
        jt.contains_key(st.pc as int),
        0 <= jt[st.pc as int] < st.pc,
        prog[jt[st.pc as int]] is LSB,
        st.tape[st.ptr as int] != 0 ==> p_step(prog, jt, input, st) == StepResult::Next(
            MachineState {
                tape: st.tape,
                ptr: st.ptr,
                pc: (jt[st.pc as int] + 1) as nat,
                read: st.read,
                out: st.out,
            },
        ),
        st.tape[st.ptr as int] == 0 ==> p_step(prog, jt, input, st) == StepResult::Next(
            MachineState {
                tape: st.tape,
                ptr: st.ptr,
                pc: st.pc + 1,
                read: st.read,
                out: st.out,
            },
        ),
{
    lemma_scan_pairs(prog, prog.len());
    assert(is_loop_op(prog[st.pc as int]));
}

} // verus!
