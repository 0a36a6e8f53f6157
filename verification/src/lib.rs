//! A toy Brainfuck engine: an instruction filter, a run-length-merging IR
//! builder with loop pairing, and two step-limited interpreters — one over
//! the raw instruction stream, one over the merged IR — whose behaviour is
//! pinned down by a small-step semantics. The laws the engine obeys are
//! stated and proved in `laws`, and the two machines are proved
//! observationally identical on loop-free programs in `equiv`.

use vstd::prelude::*;

pub mod opcode;
pub mod machine;
pub mod jit;
pub mod interpreter;
pub mod interpreter_it;
pub mod laws;
pub mod equiv;

verus! {

/// Why a run or a compilation stopped.
///
/// A loop-close with no open loop, and a loop-open that is never closed, are
/// both rejected while the intermediate form is built; reading past the end
/// of the supplied input and running out of the step budget stop a run.
#[derive(Clone, Copy, Debug, PartialEq, Eq, Structural)]
pub enum Error {
    /// A `]` appeared with no `[` still open.
    UnmatchedLoopClose,
    /// A `[` was never closed by the end of the program.
    UnmatchedLoopOpen,
    /// A read instruction ran with the input already exhausted.
    InputExhausted,
    /// The program did not halt within the given step budget.
    StepLimitExceeded,
}

} // verus!
