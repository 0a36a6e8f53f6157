//! Agreement of the two machines on programs without loops: the merged
//! intermediate form and the raw instruction stream denote the same
//! function from states to states, so the baseline interpreter and the
//! interpreter over the merged form are observationally identical on every
//! loop-free program.

use vstd::prelude::*;

use crate::interpreter::Opcode;
use crate::interpreter::opcode_of;
use crate::interpreter::p_run;
use crate::interpreter::p_step;
use crate::interpreter::program_of;
use crate::interpreter_it::it_run;
use crate::interpreter_it::it_step;
use crate::jit::ItOpcode;
use crate::jit::ir_of;
use crate::jit::build_ir;
use crate::machine::MachineState;
use crate::machine::Outcome;
use crate::machine::StepResult;
use crate::machine::cell_dec;
use crate::machine::cell_inc;
use crate::machine::move_left;
use crate::machine::pad_to;
use crate::opcode::OPCODE_ADD;
use crate::opcode::OPCODE_GETCHAR;
use crate::opcode::OPCODE_LSB;
use crate::opcode::OPCODE_PUTCHAR;
use crate::opcode::OPCODE_RSB;
use crate::opcode::OPCODE_SHL;
use crate::opcode::OPCODE_SHR;
use crate::opcode::OPCODE_SUB;
use crate::opcode::filter_instructions;
use crate::opcode::is_instruction_byte;
use crate::opcode::lemma_filter_instructions_len;
use crate::opcode::lemma_filter_instructions_members;

verus! {

/// Whether an instruction stream holds no loop boundary.
pub open spec fn loop_free(f: Seq<u8>) -> bool {
    forall|i: int| 0 <= i < f.len() ==> f[i] != OPCODE_LSB && #[trigger] f[i] != OPCODE_RSB
}

/// Whether two states agree on everything the tape machine observes: the
/// tape, the pointer, the input position and the output. The program
/// counter is left out, since the two forms count positions differently.
pub open spec fn same_observables(a: MachineState, b: MachineState) -> bool {
    &&& a.tape == b.tape
    &&& a.ptr == b.ptr
    &&& a.read == b.read
    &&& a.out == b.out
}

/// The effect of one raw instruction on a state; `None` marks a read with
/// the input exhausted. Loop boundaries are given no effect here: this
/// module only speaks of loop-free streams.
pub open spec fn instr_effect(st: MachineState, u: u8, input: Seq<u8>) -> Option<MachineState> {
    if u == OPCODE_SHL {
        Some(
            MachineState {
                tape: st.tape,
                ptr: move_left(st.ptr, 1),
                pc: st.pc + 1,
                read: st.read,
                out: st.out,
            },
        )
    } else if u == OPCODE_SHR {
        Some(
            MachineState {
                tape: pad_to(st.tape, st.ptr + 2),
                ptr: st.ptr + 1,
                pc: st.pc + 1,
                read: st.read,
                out: st.out,
            },
        )
    } else if u == OPCODE_ADD {
        Some(
            MachineState {
                tape: st.tape.update(st.ptr as int, cell_inc(st.tape[st.ptr as int], 1)),
                ptr: st.ptr,
                pc: st.pc + 1,
                read: st.read,
                out: st.out,
            },
        )
    } else if u == OPCODE_SUB {
        Some(
            MachineState {
                tape: st.tape.update(st.ptr as int, cell_dec(st.tape[st.ptr as int], 1)),
                ptr: st.ptr,
                pc: st.pc + 1,
                read: st.read,
                out: st.out,
            },
        )
    } else if u == OPCODE_GETCHAR {
        if st.read < input.len() {
            Some(
                MachineState {
                    tape: st.tape.update(st.ptr as int, input[st.read as int]),
                    ptr: st.ptr,
                    pc: st.pc + 1,
                    read: st.read + 1,
                    out: st.out,
                },
            )
        } else {
            None
        }
    } else if u == OPCODE_PUTCHAR {
        Some(
            MachineState {
                tape: st.tape,
                ptr: st.ptr,
                pc: st.pc + 1,
                read: st.read,
                out: st.out.push(st.tape[st.ptr as int]),
            },
        )
    } else {
        Some(st)
    }
}

/// The effect of one merged operation on a state; loop operations are
/// given no effect here, as in `instr_effect`.
pub open spec fn op_effect(st: MachineState, op: ItOpcode, input: Seq<u8>) -> Option<MachineState> {
    match op {
        ItOpcode::SHL(v) => Some(
            MachineState {
                tape: st.tape,
                ptr: move_left(st.ptr, v as nat),
                pc: st.pc + 1,
                read: st.read,
                out: st.out,
            },
        ),
        ItOpcode::SHR(v) => Some(
            MachineState {
                tape: pad_to(st.tape, (st.ptr + v + 1) as nat),
                ptr: (st.ptr + v) as nat,
                pc: st.pc + 1,
                read: st.read,
                out: st.out,
            },
        ),
        ItOpcode::ADD(v) => Some(
            MachineState {
                tape: st.tape.update(st.ptr as int, cell_inc(st.tape[st.ptr as int], v)),
                ptr: st.ptr,
                pc: st.pc + 1,
                read: st.read,
                out: st.out,
            },
        ),
        ItOpcode::SUB(v) => Some(
            MachineState {
                tape: st.tape.update(st.ptr as int, cell_dec(st.tape[st.ptr as int], v)),
                ptr: st.ptr,
                pc: st.pc + 1,
                read: st.read,
                out: st.out,
            },
        ),
        ItOpcode::LSB(_) => Some(st),
        ItOpcode::RSB(_) => Some(st),
        ItOpcode::GETCHAR => if st.read < input.len() {
            Some(
                MachineState {
                    tape: st.tape.update(st.ptr as int, input[st.read as int]),
                    ptr: st.ptr,
                    pc: st.pc + 1,
                    read: st.read + 1,
                    out: st.out,
                },
            )
        } else {
            None
        },
        ItOpcode::PUTCHAR => Some(
            MachineState {
                tape: st.tape,
                ptr: st.ptr,
                pc: st.pc + 1,
                read: st.read,
                out: st.out.push(st.tape[st.ptr as int]),
            },
        ),
    }
}

/// The denotation of an instruction stream: its instruction effects folded
/// over the state, in order.
pub open spec fn denote_instrs(f: Seq<u8>, input: Seq<u8>, st: MachineState) -> Option<
    MachineState,
>
    decreases f.len(),
{
    if f.len() == 0 {
        Some(st)
    } else {
        match denote_instrs(f.drop_last(), input, st) {
            None => None,
            Some(s) => instr_effect(s, f.last(), input),
        }
    }
}

/// The denotation of a merged operation sequence: its operation effects
/// folded over the state, in order.
pub open spec fn denote_ops(ops: Seq<ItOpcode>, input: Seq<u8>, st: MachineState) -> Option<
    MachineState,
>
    decreases ops.len(),
{
    if ops.len() == 0 {
        Some(st)
    } else {
        match denote_ops(ops.drop_last(), input, st) {
            None => None,
            Some(s) => op_effect(s, ops.last(), input),
        }
    }
}

/// Instruction effects read only the observables and move the program
/// counter forward by one: on states that agree on the observables they
/// agree on the result.
proof fn lemma_instr_effect_congruent(a: MachineState, b: MachineState, u: u8, input: Seq<u8>)
    requires
        same_observables(a, b),
    ensures
        instr_effect(a, u, input) is Some <==> instr_effect(b, u, input) is Some,
        instr_effect(a, u, input) is Some ==> same_observables(
            instr_effect(a, u, input)->Some_0,
            instr_effect(b, u, input)->Some_0,
        ),
{
}

/// The unit operation a fresh instruction is turned into when it cannot
/// merge with the operation before it.
pub open spec fn unit_op_of(u: u8) -> ItOpcode {
    if u == OPCODE_SHL {
        ItOpcode::SHL(1)
    } else if u == OPCODE_SHR {
        ItOpcode::SHR(1)
    } else if u == OPCODE_ADD {
        ItOpcode::ADD(1)
    } else if u == OPCODE_SUB {
        ItOpcode::SUB(1)
    } else if u == OPCODE_GETCHAR {
        ItOpcode::GETCHAR
    } else {
        ItOpcode::PUTCHAR
    }
}

/// A unit operation has exactly the effect of the instruction it stands for.
proof fn lemma_unit_op_effect(y: MachineState, u: u8, input: Seq<u8>)
    requires
        is_instruction_byte(u),
        u != OPCODE_LSB,
        u != OPCODE_RSB,
    ensures
        op_effect(y, unit_op_of(u), input) == instr_effect(y, u, input),
{
}

/// Raising a counted move-left by one is one more unit move-left.
proof fn lemma_extend_shl(y: MachineState, c: u32, input: Seq<u8>)
    requires
        c + 1 <= 0xffff_ffff,
    ensures
        ({
            let once = op_effect(y, ItOpcode::SHL(c), input);
            let more = op_effect(y, ItOpcode::SHL((c + 1) as u32), input);
            &&& once is Some
            &&& more is Some
            &&& instr_effect(once->Some_0, OPCODE_SHL, input) is Some
            &&& same_observables(
                instr_effect(once->Some_0, OPCODE_SHL, input)->Some_0,
                more->Some_0,
            )
        }),
{
    assert(move_left(y.ptr, (c + 1) as nat) == move_left(move_left(y.ptr, c as nat), 1));
}

/// Raising a counted move-right by one is one more unit move-right.
proof fn lemma_extend_shr(y: MachineState, c: u32, input: Seq<u8>)
    requires
        c + 1 <= 0xffff_ffff,
    ensures
        ({
            let once = op_effect(y, ItOpcode::SHR(c), input);
            let more = op_effect(y, ItOpcode::SHR((c + 1) as u32), input);
            &&& once is Some
            &&& more is Some
            &&& instr_effect(once->Some_0, OPCODE_SHR, input) is Some
            &&& same_observables(
                instr_effect(once->Some_0, OPCODE_SHR, input)->Some_0,
                more->Some_0,
            )
        }),
{
    assert(pad_to(pad_to(y.tape, (y.ptr + c + 1) as nat), (y.ptr + c + 2) as nat) =~= pad_to(
        y.tape,
        (y.ptr + c + 2) as nat,
    ));
}

/// Raising a counted increment by one is one more unit increment.
proof fn lemma_extend_add(y: MachineState, c: u8, input: Seq<u8>)
    requires
        y.ptr < y.tape.len(),
    ensures
        ({
            let once = op_effect(y, ItOpcode::ADD(c), input);
            let more = op_effect(y, ItOpcode::ADD(((c + 1) % 256) as u8), input);
            &&& once is Some
            &&& more is Some
            &&& instr_effect(once->Some_0, OPCODE_ADD, input) is Some
            &&& same_observables(
                instr_effect(once->Some_0, OPCODE_ADD, input)->Some_0,
                more->Some_0,
            )
        }),
{
    let x = y.tape[y.ptr as int];
    crate::laws::lemma_cell_chain_inc(x, c);
    let t1 = y.tape.update(y.ptr as int, cell_inc(x, c));
    assert(t1[y.ptr as int] == cell_inc(x, c));
    assert(t1.update(y.ptr as int, cell_inc(cell_inc(x, c), 1)) =~= y.tape.update(
        y.ptr as int,
        cell_inc(x, ((c + 1) % 256) as u8),
    ));
}

/// Raising a counted decrement by one is one more unit decrement.
proof fn lemma_extend_sub(y: MachineState, c: u8, input: Seq<u8>)
    requires
        y.ptr < y.tape.len(),
    ensures
        ({
            let once = op_effect(y, ItOpcode::SUB(c), input);
            let more = op_effect(y, ItOpcode::SUB(((c + 1) % 256) as u8), input);
            &&& once is Some
            &&& more is Some
            &&& instr_effect(once->Some_0, OPCODE_SUB, input) is Some
            &&& same_observables(
                instr_effect(once->Some_0, OPCODE_SUB, input)->Some_0,
                more->Some_0,
            )
        }),
{
    let x = y.tape[y.ptr as int];
    crate::laws::lemma_cell_chain_dec(x, c);
    let t1 = y.tape.update(y.ptr as int, cell_dec(x, c));
    assert(t1[y.ptr as int] == cell_dec(x, c));
    assert(t1.update(y.ptr as int, cell_dec(cell_dec(x, c), 1)) =~= y.tape.update(
        y.ptr as int,
        cell_dec(x, ((c + 1) % 256) as u8),
    ));
}

/// A state whose pointer rests on a cell of the tape.
pub open spec fn wf_state(st: MachineState) -> bool {
    st.ptr < st.tape.len()
}

/// Every instruction effect keeps the pointer on the tape.
proof fn lemma_denote_instrs_wf(f: Seq<u8>, input: Seq<u8>, st: MachineState)
    requires
        wf_state(st),
    ensures
        denote_instrs(f, input, st) is Some ==> wf_state(denote_instrs(f, input, st)->Some_0),
    decreases f.len(),
{
    if f.len() > 0 {
        lemma_denote_instrs_wf(f.drop_last(), input, st);
    }
}

/// Every operation effect keeps the pointer on the tape.
proof fn lemma_denote_ops_wf(ops: Seq<ItOpcode>, input: Seq<u8>, st: MachineState)
    requires
        wf_state(st),
    ensures
        denote_ops(ops, input, st) is Some ==> wf_state(denote_ops(ops, input, st)->Some_0),
    decreases ops.len(),
{
    if ops.len() > 0 {
        lemma_denote_ops_wf(ops.drop_last(), input, st);
    }
}

/// What the fold builds from a loop-free stream of instruction bytes: it
/// never fails, leaves no loop open, and emits only counted or unit
/// operations, with counts bounded by the stream length.
pub proof fn lemma_build_ir_loop_free(f: Seq<u8>)
    requires
        loop_free(f),
        forall|i: int| 0 <= i < f.len() ==> is_instruction_byte(#[trigger] f[i]),
        f.len() <= 0xffff_ffff,
    ensures
        build_ir(f) is Some,
        build_ir(f)->Some_0.1.len() == 0,
        ({
            let ops = build_ir(f)->Some_0.0;
            &&& ops.len() <= f.len()
            &&& forall|j: int|
                0 <= j < ops.len() ==> !((#[trigger] ops[j]) is LSB) && !(ops[j] is RSB) && (ops[j]
                    is SHL ==> ops[j]->SHL_0 <= f.len()) && (ops[j] is SHR ==> ops[j]->SHR_0
                    <= f.len())
        }),
    decreases f.len(),
{
    if f.len() > 0 {
        let g = f.drop_last();
        assert(loop_free(g) && forall|i: int|
            0 <= i < g.len() ==> is_instruction_byte(#[trigger] g[i])) by {
            assert(forall|i: int| 0 <= i < g.len() ==> g[i] == #[trigger] f[i]);
        }
        lemma_build_ir_loop_free(g);
        assert(f.last() != OPCODE_LSB && f.last() != OPCODE_RSB);
    }
}

/// The denotations agree on whether they fail, and on the observables when
/// they do not: merging a loop-free raw stream into counted operations
/// preserves what it denotes.
#[verifier::rlimit(100)]
pub proof fn lemma_merging_preserves_denotation(f: Seq<u8>, input: Seq<u8>, st: MachineState)
    requires
        loop_free(f),
        forall|i: int| 0 <= i < f.len() ==> is_instruction_byte(#[trigger] f[i]),
        f.len() <= 0xffff_ffff,
        wf_state(st),
    ensures
        ({
            let ops = build_ir(f)->Some_0.0;
            let d = denote_instrs(f, input, st);
            let e = denote_ops(ops, input, st);
            &&& (d is Some <==> e is Some)
            &&& (d is Some ==> same_observables(d->Some_0, e->Some_0))
        }),
    decreases f.len(),
{
    lemma_build_ir_loop_free(f);
    if f.len() > 0 {
        let g = f.drop_last();
        let u = f.last();
        assert(loop_free(g) && forall|i: int|
            0 <= i < g.len() ==> is_instruction_byte(#[trigger] g[i])) by {
            assert(forall|i: int| 0 <= i < g.len() ==> g[i] == #[trigger] f[i]);
        }
        lemma_build_ir_loop_free(g);
        lemma_merging_preserves_denotation(g, input, st);
        let ops_g = build_ir(g)->Some_0.0;
        let ops_f = build_ir(f)->Some_0.0;
        assert(u != OPCODE_LSB && u != OPCODE_RSB);
        let d_g = denote_instrs(g, input, st);
        let e_g = denote_ops(ops_g, input, st);
        if u == OPCODE_SHL && ops_g.len() > 0 && ops_g.last() is SHL {
            let c = ops_g.last()->SHL_0;
            assert(ops_f == ops_g.update(ops_g.len() - 1, ItOpcode::SHL((c + 1) as u32)));
            assert(ops_f.drop_last() =~= ops_g.drop_last());
            assert(ops_f.last() == ItOpcode::SHL((c + 1) as u32));
            match denote_ops(ops_g.drop_last(), input, st) {
                None => {},
                Some(y) => {
                    lemma_denote_ops_wf(ops_g.drop_last(), input, st);
                    lemma_extend_shl(y, c, input);
                    match (d_g, e_g) {
                        (Some(a), Some(b)) => {
                            lemma_instr_effect_congruent(a, b, u, input);
                            lemma_instr_effect_congruent(
                                b,
                                op_effect(y, ItOpcode::SHL(c), input)->Some_0,
                                u,
                                input,
                            );
                        },
                        _ => {},
                    }
                },
            }
        } else if u == OPCODE_SHR && ops_g.len() > 0 && ops_g.last() is SHR {
            let c = ops_g.last()->SHR_0;
            assert(ops_f == ops_g.update(ops_g.len() - 1, ItOpcode::SHR((c + 1) as u32)));
            assert(ops_f.drop_last() =~= ops_g.drop_last());
            assert(ops_f.last() == ItOpcode::SHR((c + 1) as u32));
            match denote_ops(ops_g.drop_last(), input, st) {
                None => {},
                Some(y) => {
                    lemma_denote_ops_wf(ops_g.drop_last(), input, st);
                    lemma_extend_shr(y, c, input);
                    match (d_g, e_g) {
                        (Some(a), Some(b)) => {
                            lemma_instr_effect_congruent(a, b, u, input);
                            lemma_instr_effect_congruent(
                                b,
                                op_effect(y, ItOpcode::SHR(c), input)->Some_0,
                                u,
                                input,
                            );
                        },
                        _ => {},
                    }
                },
            }
        } else if u == OPCODE_ADD && ops_g.len() > 0 && ops_g.last() is ADD {
            let c = ops_g.last()->ADD_0;
            assert(ops_f == ops_g.update(ops_g.len() - 1, ItOpcode::ADD(((c + 1) % 256) as u8)));
            assert(ops_f.drop_last() =~= ops_g.drop_last());
            assert(ops_f.last() == ItOpcode::ADD(((c + 1) % 256) as u8));
            match denote_ops(ops_g.drop_last(), input, st) {
                None => {},
                Some(y) => {
                    lemma_denote_ops_wf(ops_g.drop_last(), input, st);
                    lemma_extend_add(y, c, input);
                    match (d_g, e_g) {
                        (Some(a), Some(b)) => {
                            lemma_instr_effect_congruent(a, b, u, input);
                            lemma_instr_effect_congruent(
                                b,
                                op_effect(y, ItOpcode::ADD(c), input)->Some_0,
                                u,
                                input,
                            );
                        },
                        _ => {},
                    }
                },
            }
        } else if u == OPCODE_SUB && ops_g.len() > 0 && ops_g.last() is SUB {
            let c = ops_g.last()->SUB_0;
            assert(ops_f == ops_g.update(ops_g.len() - 1, ItOpcode::SUB(((c + 1) % 256) as u8)));
            assert(ops_f.drop_last() =~= ops_g.drop_last());
            assert(ops_f.last() == ItOpcode::SUB(((c + 1) % 256) as u8));
            match denote_ops(ops_g.drop_last(), input, st) {
                None => {},
                Some(y) => {
                    lemma_denote_ops_wf(ops_g.drop_last(), input, st);
                    lemma_extend_sub(y, c, input);
                    match (d_g, e_g) {
                        (Some(a), Some(b)) => {
                            lemma_instr_effect_congruent(a, b, u, input);
                            lemma_instr_effect_congruent(
                                b,
                                op_effect(y, ItOpcode::SUB(c), input)->Some_0,
                                u,
                                input,
                            );
                        },
                        _ => {},
                    }
                },
            }
        } else {
            assert(ops_f == ops_g.push(unit_op_of(u)));
            assert(ops_f.drop_last() =~= ops_g);
            assert(ops_f.last() == unit_op_of(u));
            match (d_g, e_g) {
                (Some(a), Some(b)) => {
                    lemma_instr_effect_congruent(a, b, u, input);
                    lemma_unit_op_effect(b, u, input);
                },
                _ => {},
            }
        }
    }
}

/// The denotation of an instruction stream read from position `i` forward.
pub open spec fn denote_instrs_from(f: Seq<u8>, i: nat, input: Seq<u8>, st: MachineState) -> Option<
    MachineState,
>
    decreases f.len() - i,
{
    if i >= f.len() {
        Some(st)
    } else {
        match instr_effect(st, f[i as int], input) {
            None => None,
            Some(s) => denote_instrs_from(f, i + 1, input, s),
        }
    }
}

/// The denotation of a merged operation sequence read from position `i`
/// forward.
pub open spec fn denote_ops_from(
    ops: Seq<ItOpcode>,
    i: nat,
    input: Seq<u8>,
    st: MachineState,
) -> Option<MachineState>
    decreases ops.len() - i,
{
    if i >= ops.len() {
        Some(st)
    } else {
        match op_effect(st, ops[i as int], input) {
            None => None,
            Some(s) => denote_ops_from(ops, i + 1, input, s),
        }
    }
}

/// Reading one more instruction at the end extends the forward fold by one
/// effect.
proof fn lemma_denote_instrs_from_snoc(f: Seq<u8>, u: u8, i: nat, input: Seq<u8>, st: MachineState)
    requires
        i <= f.len(),
    ensures
        denote_instrs_from(f.push(u), i, input, st) == (match denote_instrs_from(f, i, input, st) {
            None => None,
            Some(s) => instr_effect(s, u, input),
        }),
    decreases f.len() - i,
{
    if i < f.len() {
        assert(f.push(u)[i as int] == f[i as int]);
        match instr_effect(st, f[i as int], input) {
            None => {},
            Some(s) => {
                lemma_denote_instrs_from_snoc(f, u, i + 1, input, s);
            },
        }
    } else {
        assert(f.push(u)[i as int] == u);
        match instr_effect(st, u, input) {
            None => {},
            Some(s) => {
                assert(denote_instrs_from(f.push(u), i + 1, input, s) == Some(s));
            },
        }
    }
}

/// The forward and backward folds of an instruction stream agree.
proof fn lemma_denote_instrs_reverse(f: Seq<u8>, input: Seq<u8>, st: MachineState)
    ensures
        denote_instrs_from(f, 0, input, st) == denote_instrs(f, input, st),
    decreases f.len(),
{
    if f.len() > 0 {
        let g = f.drop_last();
        lemma_denote_instrs_reverse(g, input, st);
        assert(g.push(f.last()) =~= f);
        lemma_denote_instrs_from_snoc(g, f.last(), 0, input, st);
    }
}

/// Reading one more operation at the end extends the forward fold by one
/// effect.
proof fn lemma_denote_ops_from_snoc(
    ops: Seq<ItOpcode>,
    op: ItOpcode,
    i: nat,
    input: Seq<u8>,
    st: MachineState,
)
    requires
        i <= ops.len(),
    ensures
        denote_ops_from(ops.push(op), i, input, st) == (match denote_ops_from(ops, i, input, st) {
            None => None,
            Some(s) => op_effect(s, op, input),
        }),
    decreases ops.len() - i,
{
    if i < ops.len() {
        assert(ops.push(op)[i as int] == ops[i as int]);
        match op_effect(st, ops[i as int], input) {
            None => {},
            Some(s) => {
                lemma_denote_ops_from_snoc(ops, op, i + 1, input, s);
            },
        }
    } else {
        assert(ops.push(op)[i as int] == op);
        match op_effect(st, op, input) {
            None => {},
            Some(s) => {
                assert(denote_ops_from(ops.push(op), i + 1, input, s) == Some(s));
            },
        }
    }
}

/// The forward and backward folds of an operation sequence agree.
proof fn lemma_denote_ops_reverse(ops: Seq<ItOpcode>, input: Seq<u8>, st: MachineState)
    ensures
        denote_ops_from(ops, 0, input, st) == denote_ops(ops, input, st),
    decreases ops.len(),
{
    if ops.len() > 0 {
        let g = ops.drop_last();
        lemma_denote_ops_reverse(g, input, st);
        assert(g.push(ops.last()) =~= ops);
        lemma_denote_ops_from_snoc(g, ops.last(), 0, input, st);
    }
}

/// The baseline machine computes the denotation of a loop-free stream: run
/// with exactly as many steps as instructions remain, it halts in the state
/// the forward fold reaches, or fails exactly when the fold does.
proof fn lemma_plain_run_denotes(
    prog: Seq<Opcode>,
    f: Seq<u8>,
    jt: Map<int, int>,
    input: Seq<u8>,
    st: MachineState,
    n: nat,
)
    requires
        prog.len() == f.len(),
        forall|i: int| 0 <= i < f.len() ==> #[trigger] prog[i] == opcode_of(f[i]),
        forall|i: int| 0 <= i < f.len() ==> is_instruction_byte(#[trigger] f[i]),
        loop_free(f),
        wf_state(st),
        st.pc <= f.len(),
        n == f.len() - st.pc,
    ensures
        ({
            match denote_instrs_from(f, st.pc, input, st) {
                Some(s) => p_run(prog, jt, input, st, n) == Outcome::Halted(s),
                None => p_run(prog, jt, input, st, n) is Failed,
            }
        }),
    decreases n,
{
    if st.pc < f.len() {
        let u = f[st.pc as int];
        assert(prog[st.pc as int] == opcode_of(u));
        assert(u != OPCODE_LSB && u != OPCODE_RSB);
        match instr_effect(st, u, input) {
            None => {
                assert(p_step(prog, jt, input, st) is NoInput);
            },
            Some(s2) => {
                assert(p_step(prog, jt, input, st) == StepResult::Next(s2));
                lemma_plain_run_denotes(prog, f, jt, input, s2, (n - 1) as nat);
            },
        }
    }
}

/// The merged machine computes the denotation of a loop-free operation
/// sequence in the same way.
proof fn lemma_it_run_denotes(
    ops: Seq<ItOpcode>,
    input: Seq<u8>,
    st: MachineState,
    n: nat,
)
    requires
        forall|j: int| 0 <= j < ops.len() ==> !((#[trigger] ops[j]) is LSB) && !(ops[j] is RSB),
        wf_state(st),
        st.pc <= ops.len(),
        n == ops.len() - st.pc,
    ensures
        ({
            match denote_ops_from(ops, st.pc, input, st) {
                Some(s) => it_run(ops, input, st, n) == Outcome::Halted(s),
                None => it_run(ops, input, st, n) is Failed,
            }
        }),
    decreases n,
{
    if st.pc < ops.len() {
        let op = ops[st.pc as int];
        match op_effect(st, op, input) {
            None => {
                assert(it_step(ops, input, st) is NoInput);
            },
            Some(s2) => {
                assert(it_step(ops, input, st) == StepResult::Next(s2));
                lemma_it_run_denotes(ops, input, s2, (n - 1) as nat);
            },
        }
    }
}

/// On a program without loops, the two engines cannot be told apart: from
/// the same state and the same input, the baseline run over the symbolic
/// program and the merged run over the intermediate form either both halt,
/// with the same tape, pointer, input position and output, or both fail on
/// an exhausted read. No jump is ever taken, so the claim holds for every
/// jump table.
pub proof fn lemma_loop_free_engines_agree(
    data: Seq<u8>,
    jt: Map<int, int>,
    input: Seq<u8>,
    st: MachineState,
)
    requires
        loop_free(filter_instructions(data)),
        data.len() <= 0xffff_ffff,
        wf_state(st),
        st.pc == 0,
    ensures
        ir_of(data) is Some,
        ir_of(data)->Some_0.1.len() == 0,
        ({
            let prog = program_of(data);
            let ops = ir_of(data)->Some_0.0;
            let a = p_run(prog, jt, input, st, prog.len());
            let b = it_run(ops, input, st, ops.len());
            &&& (a is Halted <==> b is Halted)
            &&& (a is Halted ==> same_observables(a->Halted_0, b->Halted_0))
            &&& (!(a is Halted) ==> a is Failed && b is Failed)
        }),
{
    let f = filter_instructions(data);
    lemma_filter_instructions_len(data);
    lemma_filter_instructions_members(data);
    lemma_build_ir_loop_free(f);
    lemma_merging_preserves_denotation(f, input, st);
    let prog = program_of(data);
    let ops = ir_of(data)->Some_0.0;
    assert(prog.len() == f.len());
    assert(forall|i: int| 0 <= i < f.len() ==> #[trigger] prog[i] == opcode_of(f[i]));
    lemma_denote_instrs_reverse(f, input, st);
    lemma_denote_ops_reverse(ops, input, st);
    lemma_plain_run_denotes(prog, f, jt, input, st, prog.len());
    lemma_it_run_denotes(ops, input, st, ops.len());
}

} // verus!
