//! The eight instruction bytes of the language and the instruction filter.
//!
//! Any byte outside the recognition set is a comment and is silently dropped
//! by the filter; filtering never fails.

use vstd::prelude::*;

verus! {

/// `<`: move the pointer one cell to the left.
pub const OPCODE_SHL: u8 = 60;

/// `>`: move the pointer one cell to the right.
pub const OPCODE_SHR: u8 = 62;

/// `+`: add one to the cell under the pointer.
pub const OPCODE_ADD: u8 = 43;

/// `-`: subtract one from the cell under the pointer.
pub const OPCODE_SUB: u8 = 45;

/// `[`: jump past the matching `]` when the cell under the pointer is zero.
pub const OPCODE_LSB: u8 = 91;

/// `]`: jump back after the matching `[` when the cell under the pointer is nonzero.
pub const OPCODE_RSB: u8 = 93;

/// `,`: read one input byte into the cell under the pointer.
pub const OPCODE_GETCHAR: u8 = 44;

/// `.`: write the cell under the pointer to the output.
pub const OPCODE_PUTCHAR: u8 = 46;

/// Whether `u` is one of the eight instruction bytes.
pub open spec fn is_instruction_byte(u: u8) -> bool {
    ||| u == OPCODE_SHL
    ||| u == OPCODE_SHR
    ||| u == OPCODE_ADD
    ||| u == OPCODE_SUB
    ||| u == OPCODE_LSB
    ||| u == OPCODE_RSB
    ||| u == OPCODE_GETCHAR
    ||| u == OPCODE_PUTCHAR
}

/// The subsequence of `s` made of instruction bytes, in order.
pub open spec fn filter_instructions(s: Seq<u8>) -> Seq<u8>
    decreases s.len(),
{
    if s.len() == 0 {
        Seq::empty()
    } else if is_instruction_byte(s.last()) {
        filter_instructions(s.drop_last()).push(s.last())
    } else {
        filter_instructions(s.drop_last())
    }
}

/// Filtering never lengthens a stream.
pub proof fn lemma_filter_instructions_len(s: Seq<u8>)
    ensures
        filter_instructions(s).len() <= s.len(),
    decreases s.len(),
{
    if s.len() > 0 {
        lemma_filter_instructions_len(s.drop_last());
    }
}

/// Filtering keeps instruction bytes only.
pub proof fn lemma_filter_instructions_members(s: Seq<u8>)
    ensures
        forall|i: int|
            0 <= i < filter_instructions(s).len() ==> is_instruction_byte(
                #[trigger] filter_instructions(s)[i],
            ),
    decreases s.len(),
{
    if s.len() > 0 {
        lemma_filter_instructions_members(s.drop_last());
        let g = filter_instructions(s.drop_last());
        assert forall|i: int|
            0 <= i < filter_instructions(s).len() implies is_instruction_byte(
            filter_instructions(s)[i],
        ) by {
            if is_instruction_byte(s.last()) {
                assert(filter_instructions(s) == g.push(s.last()));
                if i < g.len() {
                    assert(filter_instructions(s)[i] == g[i]);
                }
            } else {
                assert(filter_instructions(s) == g);
            }
        }
    }
}

/// Whether `u` is one of the eight instruction bytes.
pub fn is_instruction(u: u8) -> (r: bool)
    ensures
        r == is_instruction_byte(u),
{
    u == OPCODE_SHL || u == OPCODE_SHR || u == OPCODE_ADD || u == OPCODE_SUB || u == OPCODE_LSB
        || u == OPCODE_RSB || u == OPCODE_GETCHAR || u == OPCODE_PUTCHAR
}

/// The recognition set as a list: exactly the bytes the filter keeps.
pub fn opcode_dict() -> (r: Vec<u8>)
    ensures
        r@ =~= seq![
            OPCODE_SHL,
            OPCODE_SHR,
            OPCODE_ADD,
            OPCODE_SUB,
            OPCODE_LSB,
            OPCODE_RSB,
            OPCODE_GETCHAR,
            OPCODE_PUTCHAR,
        ],
        forall|i: int| 0 <= i < r@.len() ==> is_instruction_byte(#[trigger] r@[i]),
{
    let r: Vec<u8> = vec![
        OPCODE_SHL,
        OPCODE_SHR,
        OPCODE_ADD,
        OPCODE_SUB,
        OPCODE_LSB,
        OPCODE_RSB,
        OPCODE_GETCHAR,
        OPCODE_PUTCHAR,
    ];
    assert(r@ =~= seq![
        OPCODE_SHL,
        OPCODE_SHR,
        OPCODE_ADD,
        OPCODE_SUB,
        OPCODE_LSB,
        OPCODE_RSB,
        OPCODE_GETCHAR,
        OPCODE_PUTCHAR,
    ]);
    r
}

} // verus!
