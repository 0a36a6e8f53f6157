//! The mathematical model of the tape machine: the state the contracts speak
//! of, and the effect of each kind of operation on the tape and the pointer.
//!
//! Both interpreters and the run-length-merged intermediate form describe
//! their behaviour with these functions, so that one counted operation and a
//! run of unit operations can be compared directly.

use vstd::prelude::*;

verus! {

/// A snapshot of a running machine: the tape, the cell pointer, the program
/// counter, how many input bytes were consumed, and the output so far.
#[verifier::ext_equal]
pub struct MachineState {
    pub tape: Seq<u8>,
    pub ptr: nat,
    pub pc: nat,
    pub read: nat,
    pub out: Seq<u8>,
}

/// What a single step of a machine does from a given state.
pub enum StepResult {
    /// The machine moves to this state.
    Next(MachineState),
    /// The program counter is past the last operation: the program is done.
    Halt,
    /// A read instruction ran with no input byte left.
    NoInput,
}

/// Where a run stands after a bounded number of steps.
pub enum Outcome {
    /// The program ran to completion, leaving this state.
    Halted(MachineState),
    /// A read ran out of input in this state.
    Failed(MachineState),
    /// The step budget was exhausted in this state.
    Running(MachineState),
}

/// A cell after adding `v`, with unsigned 8-bit wraparound.
pub open spec fn cell_inc(c: u8, v: u8) -> u8 {
    ((c + v) % 256) as u8
}

/// A cell after subtracting `v`, with unsigned 8-bit wraparound.
pub open spec fn cell_dec(c: u8, v: u8) -> u8 {
    ((c + 256 - v) % 256) as u8
}

/// The pointer after moving `v` cells to the left; it stops at cell zero.
pub open spec fn move_left(p: nat, v: nat) -> nat {
    if p >= v {
        (p - v) as nat
    } else {
        0
    }
}

/// The tape padded with zeroed cells on the right until it holds at least
/// `m` cells; a tape already that long is unchanged.
pub open spec fn pad_to(t: Seq<u8>, m: nat) -> Seq<u8> {
    if t.len() >= m {
        t
    } else {
        t + Seq::new((m - t.len()) as nat, |i: int| 0u8)
    }
}

} // verus!
