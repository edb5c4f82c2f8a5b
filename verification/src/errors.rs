use vstd::prelude::*;

verus! {

/// The failure modes of the machine and its tooling.
///
/// `Decode` covers an opcode tag outside `0..=21` or a fetch that would read
/// past the end of memory; the remaining variants are runtime and state
/// errors of the execution engine and its driver surface.
#[derive(Copy, Clone, Debug, PartialEq, Eq, Structural)]
pub enum VmError {
    /// The word at the fetch address is not a valid opcode tag, or the
    /// instruction's operands would lie outside memory.
    Decode,
    /// An operand decoded to `Val::Invalid` where a value was needed, or a
    /// non-register operand stood where a register was required.
    BadOperand,
    /// `Pop` was executed with an empty stack.
    EmptyStack,
    /// `Mod` was executed with a zero divisor.
    DivByZero,
    /// A memory access named an address at or above 32768.
    AddrOutOfRange,
    /// `step` was called while the machine was not in the `Running` state.
    NotRunning,
    /// `step` found the instruction pointer in the breakpoint set.
    Breakpoint,
    /// `feed` was called while the machine was not waiting for input.
    NotWaiting,
    /// `feed` was called while pending input was still buffered.
    InputNotEmpty,
    /// A stop condition that tracks call depth saw more returns than calls.
    RetImbalance,
    /// The iteration driver exhausted its internal step budget.
    StepLimit,
    /// The instructions discovered for a function do not cover a contiguous
    /// address range.
    GappedFunction,
}

/// A mnemonic text that does not parse: an unknown name, a missing or
/// malformed operand, or a wrong operand count.
#[derive(Copy, Clone, Debug, PartialEq, Eq, Structural)]
pub struct ParseError;

} // verus!
