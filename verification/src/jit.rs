//! The intermediate form consumed by the code emitters: consecutive identical
//! move and cell-change instructions are merged into counted operations, and
//! every loop-open is paired with its loop-close by a last-in-first-out
//! matching discipline over positions.
//!
//! A loop-close with no open loop is rejected at once; a loop-open still open
//! at the end of the program is also rejected, so a built `Code` only ever
//! holds fully paired loops.

use vstd::prelude::*;

use crate::opcode::OPCODE_ADD;
use crate::opcode::OPCODE_GETCHAR;
use crate::opcode::OPCODE_LSB;
use crate::opcode::OPCODE_PUTCHAR;
use crate::opcode::OPCODE_RSB;
use crate::opcode::OPCODE_SHL;
use crate::opcode::OPCODE_SHR;
use crate::opcode::OPCODE_SUB;
use crate::opcode::filter_instructions;
use crate::opcode::is_instruction;
use crate::opcode::is_instruction_byte;
use crate::Error;

verus! {

/// One operation of the intermediate form.
///
/// The counted variants carry how many identical instructions were merged;
/// the loop variants carry the position their jump lands near: a loop-open
/// holds the position just before its matching loop-close, and a loop-close
/// holds the position of its matching loop-open.
#[allow(non_camel_case_types)]
#[derive(Clone, Copy, Debug, PartialEq, Eq, Structural)]
pub enum ItOpcode {
    /// Move the pointer left by the count.
    SHL(u32),
    /// Move the pointer right by the count.
    SHR(u32),
    /// Add the count to the cell under the pointer, wrapping modulo 256.
    ADD(u8),
    /// Subtract the count from the cell under the pointer, wrapping modulo 256.
    SUB(u8),
    /// When the cell under the pointer is zero, continue after the position held.
    LSB(u32),
    /// When the cell under the pointer is nonzero, continue after the position held.
    RSB(u32),
    /// Read one input byte into the cell under the pointer.
    GETCHAR,
    /// Write the cell under the pointer to the output.
    PUTCHAR,
}

/// A compiled program: the ordered, immutable sequence of intermediate
/// operations.
#[derive(Debug)]
pub struct Code {
    pub it_opcodes: Vec<ItOpcode>,
}

/// One instruction byte folded into a partial intermediate form: `ops` is
/// what has been emitted, `stk` the positions of the loop-opens still open.
/// `None` marks a loop-close with no open loop.
pub open spec fn merge_step(ops: Seq<ItOpcode>, stk: Seq<int>, u: u8) -> Option<
    (Seq<ItOpcode>, Seq<int>),
> {
    if u == OPCODE_SHL {
        if ops.len() > 0 && ops.last() is SHL {
            Some((ops.update(ops.len() - 1, ItOpcode::SHL((ops.last()->SHL_0 + 1) as u32)), stk))
        } else {
            Some((ops.push(ItOpcode::SHL(1)), stk))
        }
    } else if u == OPCODE_SHR {
        if ops.len() > 0 && ops.last() is SHR {
            Some((ops.update(ops.len() - 1, ItOpcode::SHR((ops.last()->SHR_0 + 1) as u32)), stk))
        } else {
            Some((ops.push(ItOpcode::SHR(1)), stk))
        }
    } else if u == OPCODE_ADD {
        if ops.len() > 0 && ops.last() is ADD {
            Some(
                (
                    ops.update(ops.len() - 1, ItOpcode::ADD(((ops.last()->ADD_0 + 1) % 256) as u8)),
                    stk,
                ),
            )
        } else {
            Some((ops.push(ItOpcode::ADD(1)), stk))
        }
    } else if u == OPCODE_SUB {
        if ops.len() > 0 && ops.last() is SUB {
            Some(
                (
                    ops.update(ops.len() - 1, ItOpcode::SUB(((ops.last()->SUB_0 + 1) % 256) as u8)),
                    stk,
                ),
            )
        } else {
            Some((ops.push(ItOpcode::SUB(1)), stk))
        }
    } else if u == OPCODE_LSB {
        Some((ops.push(ItOpcode::LSB(0)), stk.push(ops.len() as int)))
    } else if u == OPCODE_RSB {
        if stk.len() == 0 {
            None
        } else {
            let i = stk.last();
            let longer = ops.push(ItOpcode::RSB(i as u32));
            Some((longer.update(i, ItOpcode::LSB((longer.len() - 2) as u32)), stk.drop_last()))
        }
    } else if u == OPCODE_GETCHAR {
        Some((ops.push(ItOpcode::GETCHAR), stk))
    } else if u == OPCODE_PUTCHAR {
        Some((ops.push(ItOpcode::PUTCHAR), stk))
    } else {
        Some((ops, stk))
    }
}

/// The intermediate form of an instruction stream, folded from the front;
/// `None` once a loop-close appears with no open loop.
pub open spec fn build_ir(prog: Seq<u8>) -> Option<(Seq<ItOpcode>, Seq<int>)>
    decreases prog.len(),
{
    if prog.len() == 0 {
        Some((Seq::<ItOpcode>::empty(), Seq::<int>::empty()))
    } else {
        match build_ir(prog.drop_last()) {
            None => None,
            Some((ops, stk)) => merge_step(ops, stk, prog.last()),
        }
    }
}

/// The intermediate form of a raw byte program: non-instruction bytes are
/// dropped first, then the stream is folded.
pub open spec fn ir_of(data: Seq<u8>) -> Option<(Seq<ItOpcode>, Seq<int>)> {
    build_ir(filter_instructions(data))
}

/// The counts of a partial intermediate form built from `n` instructions
/// never exceed `n`, and at most `n` operations were emitted.
spec fn counts_bounded(ops: Seq<ItOpcode>, n: nat) -> bool {
    &&& ops.len() <= n
    &&& forall|j: int|
        0 <= j < ops.len() ==> ((#[trigger] ops[j]) is SHL ==> ops[j]->SHL_0 <= n) && (ops[j] is SHR
            ==> ops[j]->SHR_0 <= n)
}

/// Every jump position held by a loop operation lands inside the program:
/// the position plus one never passes the end.
pub open spec fn targets_within(ops: Seq<ItOpcode>) -> bool {
    forall|j: int|
        0 <= j < ops.len() ==> (((#[trigger] ops[j]) is LSB ==> ops[j]->LSB_0 + 1 <= ops.len())
            && (ops[j] is RSB ==> ops[j]->RSB_0 + 1 <= ops.len()))
}

/// Whatever the fold has built from an instruction stream short enough for
/// positions to fit, its loop operations point inside the program, the
/// open-loop stack holds positions of loop-opens, and no more operations
/// stand than instructions were read.
pub proof fn lemma_build_ir_targets(prog: Seq<u8>)
    requires
        prog.len() <= 0xffff_ffff,
    ensures
        ({
            match build_ir(prog) {
                None => true,
                Some((ops, stk)) => {
                    &&& ops.len() <= prog.len()
                    &&& targets_within(ops)
                    &&& forall|k: int|
                        0 <= k < stk.len() ==> 0 <= #[trigger] stk[k] < ops.len() && ops[stk[k]] is LSB
                },
            }
        }),
    decreases prog.len(),
{
    if prog.len() > 0 {
        lemma_build_ir_targets(prog.drop_last());
        match build_ir(prog.drop_last()) {
            None => {},
            Some((ops, stk)) => {
                match merge_step(ops, stk, prog.last()) {
                    None => {},
                    Some((ops2, stk2)) => {
                        assert forall|j: int| 0 <= j < ops2.len() implies (((#[trigger] ops2[j])
                            is LSB ==> ops2[j]->LSB_0 + 1 <= ops2.len()) && (ops2[j] is RSB
                            ==> ops2[j]->RSB_0 + 1 <= ops2.len())) by {
                            if j < ops.len() {
                                assert(ops[j] is LSB ==> ops[j]->LSB_0 + 1 <= ops.len());
                                assert(ops[j] is RSB ==> ops[j]->RSB_0 + 1 <= ops.len());
                            }
                        }
                    },
                }
            },
        }
    }
}

/// How loop operations of a partial intermediate form hang together: every
/// loop-close points back at its loop-open, which holds the position just
/// before that loop-close; every loop-open not still on the open stack
/// points forward the same way; the open stack grows strictly and holds
/// loop-opens only.
pub open spec fn loops_paired(ops: Seq<ItOpcode>, stk: Seq<int>) -> bool {
    &&& forall|j: int|
        0 <= j < ops.len() && (#[trigger] ops[j]) is RSB ==> 0 <= ops[j]->RSB_0 < j
            && ops[ops[j]->RSB_0 as int] is LSB && ops[ops[j]->RSB_0 as int]->LSB_0 + 1 == j
            && !stk.contains(ops[j]->RSB_0 as int)
    &&& forall|i: int|
        0 <= i < ops.len() && (#[trigger] ops[i]) is LSB && !stk.contains(i) ==> i < ops[i]->LSB_0
            + 1 < ops.len() && ops[ops[i]->LSB_0 + 1 as int] is RSB && ops[ops[i]->LSB_0
            + 1 as int]->RSB_0 == i
    &&& forall|k: int| 0 <= k < stk.len() ==> 0 <= #[trigger] stk[k] < ops.len()
    &&& forall|k1: int, k2: int|
        0 <= k1 < k2 < stk.len() ==> #[trigger] stk[k1] < #[trigger] stk[k2]
}

/// Whatever the fold has built from an instruction stream short enough for
/// positions to fit, its loops are paired as `loops_paired` says; in a
/// complete build (empty open stack) every loop-open therefore points just
/// before its matching loop-close, and every loop-close back at its
/// loop-open.
pub proof fn lemma_build_ir_pairs(prog: Seq<u8>)
    requires
        prog.len() <= 0xffff_ffff,
    ensures
        build_ir(prog) matches Some((ops, stk)) ==> loops_paired(ops, stk),
    decreases prog.len(),
{
    lemma_build_ir_targets(prog);
    if prog.len() > 0 {
        lemma_build_ir_pairs(prog.drop_last());
        lemma_build_ir_targets(prog.drop_last());
        match build_ir(prog.drop_last()) {
            None => {},
            Some((ops, stk)) => {
                let u = prog.last();
                match merge_step(ops, stk, u) {
                    None => {},
                    Some((ops2, stk2)) => {
                        if u == OPCODE_RSB && stk.len() > 0 {
                            let i = stk.last();
                            let rsb = ops.len() as int;
                            assert(ops[i] is LSB);
                            assert(ops2 == ops.push(ItOpcode::RSB(i as u32)).update(
                                i,
                                ItOpcode::LSB((rsb - 1) as u32),
                            ));
                            assert(stk2 == stk.drop_last());
                            assert forall|k: int| 0 <= k < stk2.len() implies stk2[k] < i by {
                                assert(stk[k] < stk.last());
                            }
                            assert forall|j: int|
                                0 <= j < ops2.len() && (#[trigger] ops2[j]) is RSB implies 0 <= ops2[j]->RSB_0
                                < j && ops2[ops2[j]->RSB_0 as int] is LSB && ops2[ops2[j]->RSB_0 as int]->LSB_0
                                + 1 == j && !stk2.contains(ops2[j]->RSB_0 as int) by {
                                if j < rsb {
                                    assert(ops[j] is RSB);
                                    let a = ops[j]->RSB_0 as int;
                                    assert(!stk.contains(a));
                                    assert(a != i);
                                    if stk2.contains(a) {
                                        let k = choose|k: int|
                                            0 <= k < stk2.len() && stk2[k] == a;
                                        assert(stk[k] == a);
                                    }
                                } else {
                                    assert(ops2[j] == ItOpcode::RSB(i as u32));
                                    assert(ops2[i] == ItOpcode::LSB((rsb - 1) as u32));
                                    if stk2.contains(i) {
                                        let k = choose|k: int|
                                            0 <= k < stk2.len() && stk2[k] == i;
                                        assert(stk[k] == i);
                                        assert(stk[k] < stk.last());
                                    }
                                }
                            }
                            assert forall|i2: int|
                                0 <= i2 < ops2.len() && (#[trigger] ops2[i2]) is LSB && !stk2.contains(
                                    i2,
                                ) implies i2 < ops2[i2]->LSB_0 + 1 < ops2.len() && ops2[ops2[i2]->LSB_0
                                + 1 as int] is RSB && ops2[ops2[i2]->LSB_0 + 1 as int]->RSB_0 == i2 by {
                                if i2 == i {
                                    assert(ops2[i2] == ItOpcode::LSB((rsb - 1) as u32));
                                    assert(ops2[rsb] == ItOpcode::RSB(i as u32));
                                } else if i2 < rsb {
                                    assert(ops[i2] is LSB);
                                    if stk.contains(i2) {
                                        let k = choose|k: int|
                                            0 <= k < stk.len() && stk[k] == i2;
                                        if k < stk.len() - 1 {
                                            assert(stk2[k] == i2);
                                        }
                                    } else {
                                        let v = ops[i2]->LSB_0 as int;
                                        assert(ops[v + 1] is RSB);
                                        assert(v + 1 != i);
                                        assert(ops2[v + 1] == ops[v + 1]);
                                    }
                                }
                            }
                        } else if u == OPCODE_LSB {
                            assert(ops2 == ops.push(ItOpcode::LSB(0)));
                            assert(stk2 == stk.push(ops.len() as int));
                            assert forall|i2: int|
                                0 <= i2 < ops2.len() && (#[trigger] ops2[i2]) is LSB && !stk2.contains(
                                    i2,
                                ) implies i2 < ops2[i2]->LSB_0 + 1 < ops2.len() && ops2[ops2[i2]->LSB_0
                                + 1 as int] is RSB && ops2[ops2[i2]->LSB_0 + 1 as int]->RSB_0 == i2 by {
                                if i2 < ops.len() {
                                    if stk.contains(i2) {
                                        let k = choose|k: int|
                                            0 <= k < stk.len() && stk[k] == i2;
                                        assert(stk2[k] == i2);
                                    } else {
                                        assert(ops[i2] is LSB);
                                    }
                                } else {
                                    assert(stk2.last() == i2);
                                }
                            }
                            assert forall|j: int|
                                0 <= j < ops2.len() && (#[trigger] ops2[j]) is RSB implies 0 <= ops2[j]->RSB_0
                                < j && ops2[ops2[j]->RSB_0 as int] is LSB && ops2[ops2[j]->RSB_0 as int]->LSB_0
                                + 1 == j && !stk2.contains(ops2[j]->RSB_0 as int) by {
                                assert(ops[j] is RSB);
                                let a = ops[j]->RSB_0 as int;
                                if stk2.contains(a) {
                                    let k = choose|k: int|
                                        0 <= k < stk2.len() && stk2[k] == a;
                                    if k < stk.len() {
                                        assert(stk[k] == a);
                                    } else {
                                        assert(a == ops.len());
                                    }
                                }
                            }
                        } else {
                            if ops.len() > 0 && !(ops.last() is LSB) && !(ops.last() is RSB)
                                && ops2.len() == ops.len() {
                                assert forall|j: int|
                                    0 <= j < ops2.len() && (#[trigger] ops2[j]) is RSB implies 0 <= ops2[j]->RSB_0
                                    < j && ops2[ops2[j]->RSB_0 as int] is LSB
                                    && ops2[ops2[j]->RSB_0 as int]->LSB_0 + 1 == j && !stk2.contains(
                                    ops2[j]->RSB_0 as int) by {
                                    assert(ops[j] is RSB);
                                    assert(ops2[j] == ops[j]);
                                    assert(ops[ops[j]->RSB_0 as int] is LSB);
                                }
                                assert forall|i2: int|
                                    0 <= i2 < ops2.len() && (#[trigger] ops2[i2]) is LSB
                                    && !stk2.contains(i2) implies i2 < ops2[i2]->LSB_0 + 1
                                    < ops2.len() && ops2[ops2[i2]->LSB_0 + 1 as int] is RSB
                                    && ops2[ops2[i2]->LSB_0 + 1 as int]->RSB_0 == i2 by {
                                    assert(ops[i2] is LSB);
                                    assert(ops2[i2] == ops[i2]);
                                    let v = ops[i2]->LSB_0 as int;
                                    assert(ops[v + 1] is RSB);
                                    assert(ops2[v + 1] == ops[v + 1]);
                                }
                            }
                        }
                    },
                }
            },
        }
    }
}

/// Once the fold has failed on a prefix of `data`, it fails on all of `data`.
proof fn lemma_build_ir_none_extends(data: Seq<u8>, j: int)
    requires
        0 <= j <= data.len(),
        build_ir(filter_instructions(data.take(j))) is None,
    ensures
        build_ir(filter_instructions(data)) is None,
    decreases data.len() - j,
{
    if j == data.len() {
        assert(data.take(j) =~= data);
    } else {
        let prev = data.take(j);
        let curr = data.take(j + 1);
        assert(curr.drop_last() =~= prev);
        assert(curr.last() == data[j]);
        let u = data[j];
        if is_instruction_byte(u) {
            let f = filter_instructions(prev);
            assert(filter_instructions(curr) == f.push(u));
            assert(f.push(u).drop_last() =~= f);
            assert(f.push(u).last() == u);
            assert(build_ir(f.push(u)) is None);
        } else {
            assert(filter_instructions(curr) == filter_instructions(prev));
        }
        lemma_build_ir_none_extends(data, j + 1);
    }
}

impl Code {
    /// Builds the intermediate form of `data`: drops non-instruction bytes,
    /// merges runs of identical moves and cell changes into counted
    /// operations, and pairs every loop-open with its loop-close.
    ///
    /// Returns the malformed-program errors exactly as the fold finds them:
    /// `UnmatchedLoopClose` for a `]` with nothing open, `UnmatchedLoopOpen`
    /// for a `[` still open at the end.
    pub fn from(data: Vec<u8>) -> (r: Result<Code, Error>)
        requires
            data@.len() <= 0xffff_ffff,
        ensures
            ({
                let b = ir_of(data@);
                match b {
                    None => r == Err::<Code, Error>(Error::UnmatchedLoopClose),
                    Some((ops, stk)) => if stk.len() == 0 {
                        &&& r is Ok
                        &&& r->Ok_0.it_opcodes@ == ops
                    } else {
                        r == Err::<Code, Error>(Error::UnmatchedLoopOpen)
                    },
                }
            }),
    {
        let mut it_opcodes: Vec<ItOpcode> = Vec::new();
        let mut stack: Vec<usize> = Vec::new();
        let data_len = data.len();
        let mut idx: usize = 0;
        while idx < data_len
            invariant
                data_len == data@.len() <= 0xffff_ffff,
                idx <= data_len,
                build_ir(filter_instructions(data@.take(idx as int))) == Some(
                    (it_opcodes@, stack@.map_values(|p: usize| p as int)),
                ),
                counts_bounded(it_opcodes@, idx as nat),
                forall|k: int|
                    0 <= k < stack@.len() ==> (#[trigger] stack@[k]) < it_opcodes@.len()
                        && it_opcodes@[stack@[k] as int] is LSB,
            decreases data_len - idx,
        {
            let u = data[idx];
            let ghost prev = data@.take(idx as int);
            let ghost curr = data@.take(idx + 1 as int);
            proof {
                assert(curr.drop_last() =~= prev);
                assert(curr.last() == data@[idx as int]);
                if is_instruction_byte(u) {
                    let f = filter_instructions(prev);
                    assert(filter_instructions(curr) == f.push(u));
                    assert(f.push(u).drop_last() =~= f);
                    assert(f.push(u).last() == u);
                } else {
                    assert(filter_instructions(curr) == filter_instructions(prev));
                }
            }
            if is_instruction(u) {
                let n = it_opcodes.len();
                if u == OPCODE_SHL {
                    let mut merged = false;
                    if n > 0 {
                        if let ItOpcode::SHL(v) = it_opcodes[n - 1] {
                            it_opcodes[n - 1] = ItOpcode::SHL(v + 1);
                            merged = true;
                        }
                    }
                    if !merged {
                        it_opcodes.push(ItOpcode::SHL(1));
                    }
                } else if u == OPCODE_SHR {
                    let mut merged = false;
                    if n > 0 {
                        if let ItOpcode::SHR(v) = it_opcodes[n - 1] {
                            it_opcodes[n - 1] = ItOpcode::SHR(v + 1);
                            merged = true;
                        }
                    }
                    if !merged {
                        it_opcodes.push(ItOpcode::SHR(1));
                    }
                } else if u == OPCODE_ADD {
                    let mut merged = false;
                    if n > 0 {
                        if let ItOpcode::ADD(v) = it_opcodes[n - 1] {
                            it_opcodes[n - 1] = ItOpcode::ADD(v.wrapping_add(1));
                            merged = true;
                        }
                    }
                    if !merged {
                        it_opcodes.push(ItOpcode::ADD(1));
                    }
                } else if u == OPCODE_SUB {
                    let mut merged = false;
                    if n > 0 {
                        if let ItOpcode::SUB(v) = it_opcodes[n - 1] {
                            it_opcodes[n - 1] = ItOpcode::SUB(v.wrapping_add(1));
                            merged = true;
                        }
                    }
                    if !merged {
                        it_opcodes.push(ItOpcode::SUB(1));
                    }
                } else if u == OPCODE_LSB {
                    stack.push(n);
                    it_opcodes.push(ItOpcode::LSB(0));
                } else if u == OPCODE_RSB {
                    if stack.len() == 0 {
                        proof {
                            lemma_build_ir_none_extends(data@, idx + 1);
                        }
                        return Err(Error::UnmatchedLoopClose);
                    }
                    let i = stack[stack.len() - 1];
                    stack.pop();
                    it_opcodes.push(ItOpcode::RSB(i as u32));
                    let patch = (it_opcodes.len() - 2) as u32;
                    it_opcodes[i] = ItOpcode::LSB(patch);
                } else if u == OPCODE_GETCHAR {
                    it_opcodes.push(ItOpcode::GETCHAR);
                } else {
                    it_opcodes.push(ItOpcode::PUTCHAR);
                }
            }
            proof {
                assert(build_ir(filter_instructions(curr)) == Some(
                    (it_opcodes@, stack@.map_values(|p: usize| p as int)),
                ));
            }
            idx = idx + 1;
        }
        proof {
            assert(data@.take(data_len as int) =~= data@);
        }
        if stack.len() > 0 {
            return Err(Error::UnmatchedLoopOpen);
        }
        Ok(Code { it_opcodes })
    }
}

} // verus!
