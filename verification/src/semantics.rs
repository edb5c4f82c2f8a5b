//! The mathematical semantics of the machine: an abstract state, the
//! fetch-decode-execute transition `spec_step`, and the laws of the
//! arithmetic and of the boundary behaviours.

use vstd::prelude::*;

use crate::assembly::{spec_fetch, spec_size, spec_tag, Opcode, Val};
use crate::errors::VmError;

verus! {

/// The run state of the machine.
#[derive(Copy, Clone, Debug, PartialEq, Eq, Structural)]
pub enum VmState {
    Running,
    Halted,
    WaitingForInput,
    HitBreakPoint,
}

/// The abstract machine state: every field of the executable machine that
/// the step transition reads or writes, as mathematical values.
#[verifier::ext_equal]
pub struct AbsVm {
    /// 32768 memory cells.
    pub memory: Seq<u16>,
    /// Eight registers.
    pub registers: Seq<u16>,
    /// The LIFO call-and-data stack.
    pub stack: Seq<u16>,
    /// Address of the next instruction to fetch.
    pub ip: int,
    /// Count of instructions executed so far.
    pub pc: int,
    pub state: VmState,
    /// Characters emitted since the last flush.
    pub output: Seq<char>,
    /// Pending input bytes, front first.
    pub input: Seq<u8>,
    /// Output flushed so far, one entry per flush.
    pub messages: Seq<Seq<char>>,
    /// Bitmask over opcode tags selecting the traced instructions.
    pub traced: u32,
    /// The trace log: address, fetched instruction, and the resolved
    /// call for a `Call` through a register.
    pub trace: Seq<(usize, Opcode, Option<Opcode>)>,
    /// Whether designated call targets are emulated natively.
    pub fn_patching: bool,
    /// Addresses that suspend execution when fetched.
    pub breakpoints: Seq<usize>,
    /// The memory-scan shadow: one optional snapshot word per cell.
    pub scanmem: Seq<Option<u16>>,
}

impl AbsVm {
    /// Structural well-formedness: the fixed sizes of memory, registers
    /// and the scan shadow.
    pub open spec fn wf(self) -> bool {
        &&& self.memory.len() == 32768
        &&& self.registers.len() == 8
        &&& self.scanmem.len() == 32768
    }
}

/// The 15-bit reduction every arithmetic result undergoes.
pub open spec fn mask15(x: int) -> u16 {
    (x % 32768) as u16
}

/// The value an operand denotes: the immediate itself, the contents of
/// the named register, nothing for an invalid encoding.
pub open spec fn spec_val(s: AbsVm, v: Val) -> Option<u16> {
    match v {
        Val::Num(n) => Some(n),
        Val::Reg(r) => if r < 8 {
            Some(s.registers[r as int])
        } else {
            None
        },
        Val::Invalid => None,
    }
}

/// The register index an operand names, if it names one.
pub open spec fn spec_reg(v: Val) -> Option<int> {
    match v {
        Val::Reg(r) => if r < 8 {
            Some(r as int)
        } else {
            None
        },
        _ => None,
    }
}

/// The two-operand bitwise combination computed by the routine at entry
/// 2125: `(r0 | r1) & !(r0 & r1)`, every intermediate reduced to 15 bits
/// exactly as the instruction sequence reduces it.
pub open spec fn spec_bitwise_2125(r0: u16, r1: u16) -> u16 {
    mask15((mask15((r0 | r1) as int) & mask15((!(mask15((r0 & r1) as int))) as int)) as int)
}

/// The Ackermann-like two-result recursion computed by the routine at
/// entry 6027, with the third register as a fixed parameter and all
/// arithmetic reduced modulo 32768.
pub open spec fn spec_ack(r0: u16, r1: u16, r7: u16) -> (u16, u16)
    decreases r0, r1,
{
    if r0 == 0 {
        (mask15(r1 + 1), r1)
    } else if r1 == 0 {
        spec_ack((r0 - 1) as u16, r7, r7)
    } else {
        let first = spec_ack(r0, (r1 - 1) as u16, r7);
        spec_ack((r0 - 1) as u16, first.0, r7)
    }
}

/// The diagnostic instruction counter advanced by `k`, held at its
/// ceiling rather than wrapping.
pub open spec fn pc_bump(p: int, k: int) -> int {
    if p + k <= u64::MAX {
        p + k
    } else {
        u64::MAX as int
    }
}

/// The resolved instruction recorded in the trace: only a `Call` through
/// a register resolves, to the concrete call it would take.
pub open spec fn spec_resolved(s: AbsVm, op: Opcode) -> Option<Opcode> {
    match op {
        Opcode::Call(Val::Reg(r)) => if r < 8 {
            Some(Opcode::Call(Val::Num(s.registers[r as int])))
        } else {
            None
        },
        _ => None,
    }
}

/// The effect of one decoded instruction on the abstract state, with the
/// instruction pointer already advanced to `next_ip`.  An error leaves
/// the machine exactly as it was.
pub open spec fn spec_exec(s: AbsVm, op: Opcode, next_ip: int) -> Result<AbsVm, VmError> {
    match op {
        Opcode::Halt => Ok(AbsVm { ip: next_ip, state: VmState::Halted, ..s }),
        Opcode::Assign(a, b) => match (spec_reg(a), spec_val(s, b)) {
            (Some(r), Some(v)) => Ok(
                AbsVm { ip: next_ip, registers: s.registers.update(r, v), ..s },
            ),
            _ => Err(VmError::BadOperand),
        },
        Opcode::Push(a) => match spec_val(s, a) {
            Some(v) => Ok(AbsVm { ip: next_ip, stack: s.stack.push(v), ..s }),
            None => Err(VmError::BadOperand),
        },
        Opcode::Pop(a) => if s.stack.len() == 0 {
            Err(VmError::EmptyStack)
        } else {
            match spec_reg(a) {
                Some(r) => Ok(
                    AbsVm {
                        ip: next_ip,
                        registers: s.registers.update(r, s.stack.last()),
                        stack: s.stack.drop_last(),
                        ..s
                    },
                ),
                None => Err(VmError::BadOperand),
            }
        },
        Opcode::Eq(a, b, c) => match (spec_reg(a), spec_val(s, b), spec_val(s, c)) {
            (Some(r), Some(vb), Some(vc)) => Ok(
                AbsVm {
                    ip: next_ip,
                    registers: s.registers.update(r, if vb == vc { 1u16 } else { 0u16 }),
                    ..s
                },
            ),
            _ => Err(VmError::BadOperand),
        },
        Opcode::Gt(a, b, c) => match (spec_reg(a), spec_val(s, b), spec_val(s, c)) {
            (Some(r), Some(vb), Some(vc)) => Ok(
                AbsVm {
                    ip: next_ip,
                    registers: s.registers.update(r, if vb > vc { 1u16 } else { 0u16 }),
                    ..s
                },
            ),
            _ => Err(VmError::BadOperand),
        },
        Opcode::Jmp(a) => match spec_val(s, a) {
            Some(t) => Ok(AbsVm { ip: t as int, ..s }),
            None => Err(VmError::BadOperand),
        },
        Opcode::Jt(a, b) => match spec_val(s, a) {
            Some(cond) => if cond != 0 {
                match spec_val(s, b) {
                    Some(t) => Ok(AbsVm { ip: t as int, ..s }),
                    None => Err(VmError::BadOperand),
                }
            } else {
                Ok(AbsVm { ip: next_ip, ..s })
            },
            None => Err(VmError::BadOperand),
        },
        Opcode::Jf(a, b) => match spec_val(s, a) {
            Some(cond) => if cond == 0 {
                match spec_val(s, b) {
                    Some(t) => Ok(AbsVm { ip: t as int, ..s }),
                    None => Err(VmError::BadOperand),
                }
            } else {
                Ok(AbsVm { ip: next_ip, ..s })
            },
            None => Err(VmError::BadOperand),
        },
        Opcode::Add(a, b, c) => match (spec_reg(a), spec_val(s, b), spec_val(s, c)) {
            (Some(r), Some(vb), Some(vc)) => Ok(
                AbsVm { ip: next_ip, registers: s.registers.update(r, mask15(vb + vc)), ..s },
            ),
            _ => Err(VmError::BadOperand),
        },
        Opcode::Mult(a, b, c) => match (spec_reg(a), spec_val(s, b), spec_val(s, c)) {
            (Some(r), Some(vb), Some(vc)) => Ok(
                AbsVm { ip: next_ip, registers: s.registers.update(r, mask15(vb * vc)), ..s },
            ),
            _ => Err(VmError::BadOperand),
        },
        Opcode::Mod(a, b, c) => match (spec_reg(a), spec_val(s, b), spec_val(s, c)) {
            (Some(r), Some(vb), Some(vc)) => if vc == 0 {
                Err(VmError::DivByZero)
            } else {
                Ok(
                    AbsVm {
                        ip: next_ip,
                        registers: s.registers.update(r, (vb % vc) as u16),
                        ..s
                    },
                )
            },
            _ => Err(VmError::BadOperand),
        },
        Opcode::And(a, b, c) => match (spec_reg(a), spec_val(s, b), spec_val(s, c)) {
            (Some(r), Some(vb), Some(vc)) => Ok(
                AbsVm {
                    ip: next_ip,
                    registers: s.registers.update(r, mask15((vb & vc) as int)),
                    ..s
                },
            ),
            _ => Err(VmError::BadOperand),
        },
        Opcode::Or(a, b, c) => match (spec_reg(a), spec_val(s, b), spec_val(s, c)) {
            (Some(r), Some(vb), Some(vc)) => Ok(
                AbsVm {
                    ip: next_ip,
                    registers: s.registers.update(r, mask15((vb | vc) as int)),
                    ..s
                },
            ),
            _ => Err(VmError::BadOperand),
        },
        Opcode::Not(a, b) => match (spec_reg(a), spec_val(s, b)) {
            (Some(r), Some(vb)) => Ok(
                AbsVm {
                    ip: next_ip,
                    registers: s.registers.update(r, mask15((!vb) as int)),
                    ..s
                },
            ),
            _ => Err(VmError::BadOperand),
        },
        Opcode::Rmem(a, b) => match (spec_reg(a), spec_val(s, b)) {
            (Some(r), Some(addr)) => if addr < 32768 {
                Ok(
                    AbsVm {
                        ip: next_ip,
                        registers: s.registers.update(r, s.memory[addr as int]),
                        ..s
                    },
                )
            } else {
                Err(VmError::AddrOutOfRange)
            },
            _ => Err(VmError::BadOperand),
        },
        Opcode::Wmem(a, b) => match (spec_val(s, a), spec_val(s, b)) {
            (Some(addr), Some(v)) => if addr < 32768 {
                Ok(AbsVm { ip: next_ip, memory: s.memory.update(addr as int, v), ..s })
            } else {
                Err(VmError::AddrOutOfRange)
            },
            _ => Err(VmError::BadOperand),
        },
        Opcode::Call(a) => match spec_val(s, a) {
            Some(addr) => {
                // A patched call performs the pushed return synthetically:
                // the callee's effect is applied, the return address is
                // pushed and at once popped again, and control resumes
                // after the call with the stack as it was.
                if s.fn_patching && addr == 3 {
                    Ok(AbsVm { ip: next_ip, registers: s.registers.update(0, 20u16), ..s })
                } else if s.fn_patching && addr == 2125 {
                    Ok(
                        AbsVm {
                            ip: next_ip,
                            pc: pc_bump(s.pc, 9),
                            registers: s.registers.update(
                                0,
                                spec_bitwise_2125(s.registers[0], s.registers[1]),
                            ),
                            ..s
                        },
                    )
                } else if s.fn_patching && addr == 6027 {
                    let res = spec_ack(s.registers[0], s.registers[1], s.registers[7]);
                    Ok(
                        AbsVm {
                            ip: next_ip,
                            registers: s.registers.update(0, res.0).update(1, res.1),
                            ..s
                        },
                    )
                } else {
                    Ok(AbsVm { ip: addr as int, stack: s.stack.push(next_ip as u16), ..s })
                }
            },
            None => Err(VmError::BadOperand),
        },
        Opcode::Ret => if s.stack.len() == 0 {
            Ok(AbsVm { ip: next_ip, state: VmState::Halted, ..s })
        } else {
            Ok(AbsVm { ip: s.stack.last() as int, stack: s.stack.drop_last(), ..s })
        },
        Opcode::Out(a) => match spec_val(s, a) {
            Some(v) => Ok(AbsVm { ip: next_ip, output: s.output.push((v % 256) as char), ..s }),
            None => Err(VmError::BadOperand),
        },
        Opcode::In(a) => match spec_reg(a) {
            Some(r) => if s.input.len() > 0 {
                Ok(
                    AbsVm {
                        ip: next_ip,
                        registers: s.registers.update(r, s.input[0] as u16),
                        input: s.input.skip(1),
                        ..s
                    },
                )
            } else {
                Ok(
                    AbsVm {
                        ip: next_ip - 2,
                        messages: s.messages.push(s.output),
                        output: Seq::empty(),
                        state: VmState::WaitingForInput,
                        ..s
                    },
                )
            },
            None => Err(VmError::BadOperand),
        },
        Opcode::Noop => Ok(AbsVm { ip: next_ip, ..s }),
    }
}

/// The successful result of `spec_exec`, or the unchanged state when it
/// fails.
pub open spec fn exec_ok(s: AbsVm, op: Opcode, next_ip: int) -> AbsVm {
    match spec_exec(s, op, next_ip) {
        Result::Ok(s2) => s2,
        Result::Err(_) => s,
    }
}

/// One step of the engine: refuse when not running, suspend on a
/// breakpoint, otherwise fetch at `ip`, advance `ip` by the instruction's
/// size before dispatch, execute, and on success count the instruction
/// and record it in the trace when its tag bit is selected.  Every failed
/// step other than a breakpoint leaves the machine unchanged.
pub open spec fn spec_step(s: AbsVm) -> (AbsVm, Result<(usize, Opcode), VmError>) {
    if s.state != VmState::Running {
        (s, Err(VmError::NotRunning))
    } else if s.breakpoints.contains(s.ip as usize) {
        (AbsVm { state: VmState::HitBreakPoint, ..s }, Err(VmError::Breakpoint))
    } else {
        match spec_fetch(s.memory, s.ip) {
            Option::None => (s, Err(VmError::Decode)),
            Option::Some(op) => {
                match spec_exec(s, op, s.ip + spec_size(op)) {
                    Result::Err(e) => (s, Err(e)),
                    Result::Ok(s2) => {
                        let s3 = if s.traced & (1u32 << spec_tag(op)) != 0 {
                            AbsVm {
                                trace: s2.trace.push((s.ip as usize, op, spec_resolved(s, op))),
                                ..s2
                            }
                        } else {
                            s2
                        };
                        (AbsVm { pc: pc_bump(s3.pc, 1), ..s3 }, Ok((s.ip as usize, op)))
                    },
                }
            },
        }
    }
}

/// Observational equality of machines: what snapshot comparison sees.
/// The diagnostic counter, the trace and its mask, the breakpoint set,
/// the scan shadow and the patching toggle are not observable.
pub open spec fn obs_eq(a: AbsVm, b: AbsVm) -> bool {
    &&& a.memory == b.memory
    &&& a.registers == b.registers
    &&& a.stack == b.stack
    &&& a.ip == b.ip
    &&& a.state == b.state
    &&& a.output == b.output
    &&& a.input == b.input
    &&& a.messages == b.messages
}

/// What the iteration driver does on exit: a halted machine's pending
/// output is flushed into the message log.
pub open spec fn spec_finish(s: AbsVm) -> AbsVm {
    if s.state == VmState::Halted {
        AbsVm { messages: s.messages.push(s.output), output: Seq::empty(), ..s }
    } else {
        s
    }
}

/// Addition wraps at 32768: two values that sum to the modulus give 0.
pub proof fn lemma_add_wraps(a: u16, b: u16)
    requires
        a + b == 32768,
    ensures
        mask15(a + b) == 0,
{
}

/// `Not` is the 15-bit complement: on an in-domain value it yields
/// `32767 - v`.
pub proof fn lemma_not_is_complement(v: u16)
    requires
        v < 32768,
    ensures
        mask15((!v) as int) == 32767 - v,
{
    assert(((!v) % 32768) == 32767 - v) by (bit_vector)
        requires
            v < 32768,
    ;
}

/// The bitwise routine at entry 2125 computes exclusive-or, reduced to
/// 15 bits.
pub proof fn lemma_bitwise_2125_is_xor(r0: u16, r1: u16)
    ensures
        spec_bitwise_2125(r0, r1) == mask15((r0 ^ r1) as int),
{
    assert((((r0 | r1) % 32768) & ((!((r0 & r1) % 32768)) % 32768)) % 32768 == (r0 ^ r1) % 32768)
        by (bit_vector);
}

/// `Mod` with a zero divisor is a runtime error that leaves the machine
/// unchanged.
pub proof fn lemma_mod_by_zero_fails(s: AbsVm, a: Val, b: Val, c: Val)
    requires
        s.state == VmState::Running,
        !s.breakpoints.contains(s.ip as usize),
        spec_fetch(s.memory, s.ip) == Some(Opcode::Mod(a, b, c)),
        spec_reg(a) is Some,
        spec_val(s, b) is Some,
        spec_val(s, c) == Some(0u16),
    ensures
        spec_step(s) == (s, Result::<(usize, Opcode), VmError>::Err(VmError::DivByZero)),
{
}

/// `Ret` with an empty stack halts cleanly: the step succeeds and the
/// machine is halted, not in error.
pub proof fn lemma_ret_empty_stack_halts(s: AbsVm)
    requires
        s.state == VmState::Running,
        !s.breakpoints.contains(s.ip as usize),
        spec_fetch(s.memory, s.ip) == Some(Opcode::Ret),
        s.stack.len() == 0,
    ensures
        spec_step(s).1 is Ok,
        spec_step(s).0.state == VmState::Halted,
{
}

/// A jump to an address whose word is an invalid opcode tag succeeds;
/// the decode error surfaces only at the next step.
pub proof fn lemma_jmp_to_invalid_tag(s: AbsVm, a: Val, t: u16)
    requires
        s.wf(),
        s.state == VmState::Running,
        !s.breakpoints.contains(s.ip as usize),
        spec_fetch(s.memory, s.ip) == Some(Opcode::Jmp(a)),
        spec_val(s, a) == Some(t),
        t < 32768,
        21 < s.memory[t as int],
        !s.breakpoints.contains(t as usize),
    ensures
        spec_step(s).1 is Ok,
        spec_step(s).0.state == VmState::Running,
        spec_step(s).0.ip == t as int,
        spec_step(spec_step(s).0).1 == Result::<(usize, Opcode), VmError>::Err(VmError::Decode),
        spec_step(spec_step(s).0).0 == spec_step(s).0,
{
}

/// The machine `n` steps later, each step taken whatever its outcome.
pub open spec fn spec_step_n(s: AbsVm, n: nat) -> AbsVm
    decreases n,
{
    if n == 0 {
        s
    } else {
        spec_step_n(spec_step(s).0, (n - 1) as nat)
    }
}

/// The memory image of the bitwise routine the machine's native patch
/// replaces: the nine instructions at its designated entry.
pub open spec fn bitwise_routine_in_memory(mem: Seq<u16>) -> bool {
    &&& mem[2125] == 2 && mem[2126] == 32769  // Push r1
    &&& mem[2127] == 2 && mem[2128] == 32770  // Push r2
    &&& mem[2129] == 12 && mem[2130] == 32770 && mem[2131] == 32768 && mem[2132]
        == 32769  // And r2, r0, r1
    &&& mem[2133] == 14 && mem[2134] == 32770 && mem[2135] == 32770  // Not r2, r2
    &&& mem[2136] == 13 && mem[2137] == 32768 && mem[2138] == 32768 && mem[2139]
        == 32769  // Or r0, r0, r1
    &&& mem[2140] == 12 && mem[2141] == 32768 && mem[2142] == 32768 && mem[2143]
        == 32770  // And r0, r0, r2
    &&& mem[2144] == 3 && mem[2145] == 32770  // Pop r2
    &&& mem[2146] == 3 && mem[2147] == 32769  // Pop r1
    &&& mem[2148] == 18  // Ret
}

/// What one interpreted step leaves untouched and what it changes, for
/// each instruction shape of the bitwise routine.  Each lemma also
/// carries the facts the next step needs.
proof fn lemma_step_call_imm(s: AbsVm, t: u16)
    requires
        s.wf(),
        s.state == VmState::Running,
        !s.breakpoints.contains(s.ip as usize),
        spec_fetch(s.memory, s.ip) == Some(Opcode::Call(Val::Num(t))),
        !s.fn_patching,
    ensures
        spec_step(s).1 is Ok,
        ({
            let s2 = spec_step(s).0;
            &&& s2.memory == s.memory
            &&& s2.registers == s.registers
            &&& s2.stack == s.stack.push((s.ip + 2) as u16)
            &&& s2.ip == t as int
            &&& s2.state == VmState::Running
            &&& s2.breakpoints == s.breakpoints
            &&& s2.fn_patching == s.fn_patching
            &&& s2.wf()
        }),
{
}

proof fn lemma_step_push_reg(s: AbsVm, k: usize)
    requires
        s.wf(),
        s.state == VmState::Running,
        !s.breakpoints.contains(s.ip as usize),
        spec_fetch(s.memory, s.ip) == Some(Opcode::Push(Val::Reg(k))),
        k < 8,
    ensures
        spec_step(s).1 is Ok,
        ({
            let s2 = spec_step(s).0;
            &&& s2.memory == s.memory
            &&& s2.registers == s.registers
            &&& s2.stack == s.stack.push(s.registers[k as int])
            &&& s2.ip == s.ip + 2
            &&& s2.state == VmState::Running
            &&& s2.breakpoints == s.breakpoints
            &&& s2.fn_patching == s.fn_patching
            &&& s2.wf()
        }),
{
}

proof fn lemma_step_and_regs(s: AbsVm, d: usize, a: usize, b: usize)
    requires
        s.wf(),
        s.state == VmState::Running,
        !s.breakpoints.contains(s.ip as usize),
        spec_fetch(s.memory, s.ip) == Some(Opcode::And(Val::Reg(d), Val::Reg(a), Val::Reg(b))),
        d < 8 && a < 8 && b < 8,
    ensures
        spec_step(s).1 is Ok,
        ({
            let s2 = spec_step(s).0;
            &&& s2.memory == s.memory
            &&& s2.registers == s.registers.update(
                d as int,
                mask15((s.registers[a as int] & s.registers[b as int]) as int),
            )
            &&& s2.stack == s.stack
            &&& s2.ip == s.ip + 4
            &&& s2.state == VmState::Running
            &&& s2.breakpoints == s.breakpoints
            &&& s2.fn_patching == s.fn_patching
            &&& s2.wf()
        }),
{
}

proof fn lemma_step_or_regs(s: AbsVm, d: usize, a: usize, b: usize)
    requires
        s.wf(),
        s.state == VmState::Running,
        !s.breakpoints.contains(s.ip as usize),
        spec_fetch(s.memory, s.ip) == Some(Opcode::Or(Val::Reg(d), Val::Reg(a), Val::Reg(b))),
        d < 8 && a < 8 && b < 8,
    ensures
        spec_step(s).1 is Ok,
        ({
            let s2 = spec_step(s).0;
            &&& s2.memory == s.memory
            &&& s2.registers == s.registers.update(
                d as int,
                mask15((s.registers[a as int] | s.registers[b as int]) as int),
            )
            &&& s2.stack == s.stack
            &&& s2.ip == s.ip + 4
            &&& s2.state == VmState::Running
            &&& s2.breakpoints == s.breakpoints
            &&& s2.fn_patching == s.fn_patching
            &&& s2.wf()
        }),
{
}

proof fn lemma_step_not_reg(s: AbsVm, d: usize, a: usize)
    requires
        s.wf(),
        s.state == VmState::Running,
        !s.breakpoints.contains(s.ip as usize),
        spec_fetch(s.memory, s.ip) == Some(Opcode::Not(Val::Reg(d), Val::Reg(a))),
        d < 8 && a < 8,
    ensures
        spec_step(s).1 is Ok,
        ({
            let s2 = spec_step(s).0;
            &&& s2.memory == s.memory
            &&& s2.registers == s.registers.update(
                d as int,
                mask15((!s.registers[a as int]) as int),
            )
            &&& s2.stack == s.stack
            &&& s2.ip == s.ip + 3
            &&& s2.state == VmState::Running
            &&& s2.breakpoints == s.breakpoints
            &&& s2.fn_patching == s.fn_patching
            &&& s2.wf()
        }),
{
}

proof fn lemma_step_pop_reg(s: AbsVm, k: usize)
    requires
        s.wf(),
        s.state == VmState::Running,
        !s.breakpoints.contains(s.ip as usize),
        spec_fetch(s.memory, s.ip) == Some(Opcode::Pop(Val::Reg(k))),
        k < 8,
        s.stack.len() > 0,
    ensures
        spec_step(s).1 is Ok,
        ({
            let s2 = spec_step(s).0;
            &&& s2.memory == s.memory
            &&& s2.registers == s.registers.update(k as int, s.stack.last())
            &&& s2.stack == s.stack.drop_last()
            &&& s2.ip == s.ip + 2
            &&& s2.state == VmState::Running
            &&& s2.breakpoints == s.breakpoints
            &&& s2.fn_patching == s.fn_patching
            &&& s2.wf()
        }),
{
}

proof fn lemma_step_ret_nonempty(s: AbsVm)
    requires
        s.wf(),
        s.state == VmState::Running,
        !s.breakpoints.contains(s.ip as usize),
        spec_fetch(s.memory, s.ip) == Some(Opcode::Ret),
        s.stack.len() > 0,
    ensures
        spec_step(s).1 is Ok,
        ({
            let s2 = spec_step(s).0;
            &&& s2.memory == s.memory
            &&& s2.registers == s.registers
            &&& s2.stack == s.stack.drop_last()
            &&& s2.ip == s.stack.last() as int
            &&& s2.state == VmState::Running
            &&& s2.breakpoints == s.breakpoints
            &&& s2.fn_patching == s.fn_patching
            &&& s2.wf()
        }),
{
}

proof fn lemma_step_call_patched_2125(s: AbsVm)
    requires
        s.wf(),
        s.state == VmState::Running,
        !s.breakpoints.contains(s.ip as usize),
        spec_fetch(s.memory, s.ip) == Some(Opcode::Call(Val::Num(2125))),
        s.fn_patching,
    ensures
        spec_step(s).1 is Ok,
        ({
            let s2 = spec_step(s).0;
            &&& s2.memory == s.memory
            &&& s2.registers == s.registers.update(
                0,
                spec_bitwise_2125(s.registers[0], s.registers[1]),
            )
            &&& s2.stack == s.stack
            &&& s2.ip == s.ip + 2
            &&& s2.state == VmState::Running
        }),
{
}

/// The nine fetches of the bitwise routine, read off its memory image.
proof fn lemma_bitwise_routine_fetches(mem: Seq<u16>)
    requires
        mem.len() == 32768,
        bitwise_routine_in_memory(mem),
    ensures
        spec_fetch(mem, 2125) == Some(Opcode::Push(Val::Reg(1))),
        spec_fetch(mem, 2127) == Some(Opcode::Push(Val::Reg(2))),
        spec_fetch(mem, 2129) == Some(Opcode::And(Val::Reg(2), Val::Reg(0), Val::Reg(1))),
        spec_fetch(mem, 2133) == Some(Opcode::Not(Val::Reg(2), Val::Reg(2))),
        spec_fetch(mem, 2136) == Some(Opcode::Or(Val::Reg(0), Val::Reg(0), Val::Reg(1))),
        spec_fetch(mem, 2140) == Some(Opcode::And(Val::Reg(0), Val::Reg(0), Val::Reg(2))),
        spec_fetch(mem, 2144) == Some(Opcode::Pop(Val::Reg(2))),
        spec_fetch(mem, 2146) == Some(Opcode::Pop(Val::Reg(1))),
        spec_fetch(mem, 2148) == Some(Opcode::Ret),
{
}

proof fn lemma_step_assign_imm(s: AbsVm, k: usize, v: u16)
    requires
        s.wf(),
        s.state == VmState::Running,
        !s.breakpoints.contains(s.ip as usize),
        spec_fetch(s.memory, s.ip) == Some(Opcode::Assign(Val::Reg(k), Val::Num(v))),
        k < 8,
    ensures
        spec_step(s).1 is Ok,
        ({
            let s2 = spec_step(s).0;
            &&& s2.memory == s.memory
            &&& s2.registers == s.registers.update(k as int, v)
            &&& s2.stack == s.stack
            &&& s2.ip == s.ip + 3
            &&& s2.state == VmState::Running
            &&& s2.breakpoints == s.breakpoints
            &&& s2.fn_patching == s.fn_patching
            &&& s2.wf()
        }),
{
}

proof fn lemma_step_call_patched_3(s: AbsVm)
    requires
        s.wf(),
        s.state == VmState::Running,
        !s.breakpoints.contains(s.ip as usize),
        spec_fetch(s.memory, s.ip) == Some(Opcode::Call(Val::Num(3))),
        s.fn_patching,
    ensures
        spec_step(s).1 is Ok,
        ({
            let s2 = spec_step(s).0;
            &&& s2.memory == s.memory
            &&& s2.registers == s.registers.update(0, 20u16)
            &&& s2.stack == s.stack
            &&& s2.ip == s.ip + 2
            &&& s2.state == VmState::Running
        }),
{
}

/// Native patching is faithful for the sentinel callee: when the
/// designated sentinel address holds `Set r0, 20; Ret`, three
/// interpreted steps — the call, the set, the return — reach exactly
/// the registers, memory, stack, instruction pointer and run state
/// that the natively patched call reaches in one step, the pushed
/// return address consumed by the synthetic return.
#[verifier::rlimit(100)]
#[verifier::spinoff_prover]
pub proof fn lemma_patched_sentinel_faithful(s: AbsVm)
    requires
        s.wf(),
        s.state == VmState::Running,
        s.breakpoints == Seq::<usize>::empty(),
        !s.fn_patching,
        0 <= s.ip,
        s.ip + 2 <= 32768,
        s.memory[s.ip] == 17,
        s.memory[s.ip + 1] == 3,
        s.memory[3] == 1 && s.memory[4] == 32768 && s.memory[5] == 20 && s.memory[6] == 18,
    ensures
        ({
            let ran = spec_step_n(s, 3);
            let patched = spec_step(AbsVm { fn_patching: true, ..s }).0;
            &&& ran.registers == s.registers.update(0, 20u16)
            &&& ran.memory == s.memory
            &&& ran.stack == s.stack
            &&& ran.ip == s.ip + 2
            &&& ran.state == VmState::Running
            &&& patched.registers == ran.registers
            &&& patched.memory == ran.memory
            &&& patched.ip == ran.ip
            &&& patched.state == ran.state
            &&& patched.stack == ran.stack
        }),
{
    let ret = (s.ip + 2) as u16;
    assert(spec_fetch(s.memory, s.ip) == Some(Opcode::Call(Val::Num(3))));
    assert(spec_fetch(s.memory, 3) == Some(Opcode::Assign(Val::Reg(0), Val::Num(20))));
    assert(spec_fetch(s.memory, 6) == Some(Opcode::Ret));
    lemma_step_call_imm(s, 3);
    let s1 = spec_step(s).0;
    lemma_step_assign_imm(s1, 0, 20);
    let s2 = spec_step(s1).0;
    assert(s2.stack == s.stack.push(ret));
    lemma_step_ret_nonempty(s2);
    let s3 = spec_step(s2).0;
    assert(s2.stack.last() == ret && s2.stack.drop_last() =~= s.stack);
    assert(spec_step_n(s, 3) == s3) by {
        reveal_with_fuel(spec_step_n, 4);
    }
    let sp = AbsVm { fn_patching: true, ..s };
    assert(spec_fetch(sp.memory, sp.ip) == Some(Opcode::Call(Val::Num(3))));
    lemma_step_call_patched_3(sp);
}

/// Native patching is faithful for the bitwise routine: from a call to
/// its entry, ten interpreted steps — the call, its nine instructions —
/// reach exactly the registers, memory, stack, instruction pointer and
/// run state that the natively patched call reaches in one step, the
/// pushed return address consumed by the synthetic return.
#[verifier::rlimit(100)]
#[verifier::spinoff_prover]
pub proof fn lemma_patched_2125_faithful(s: AbsVm)
    requires
        s.wf(),
        s.state == VmState::Running,
        s.breakpoints == Seq::<usize>::empty(),
        !s.fn_patching,
        0 <= s.ip,
        s.ip + 2 <= 32768,
        s.memory[s.ip] == 17,
        s.memory[s.ip + 1] == 2125,
        bitwise_routine_in_memory(s.memory),
    ensures
        ({
            let ran = spec_step_n(s, 10);
            let patched = spec_step(AbsVm { fn_patching: true, ..s }).0;
            &&& ran.registers == s.registers.update(
                0,
                spec_bitwise_2125(s.registers[0], s.registers[1]),
            )
            &&& ran.memory == s.memory
            &&& ran.stack == s.stack
            &&& ran.ip == s.ip + 2
            &&& ran.state == VmState::Running
            &&& patched.registers == ran.registers
            &&& patched.memory == ran.memory
            &&& patched.ip == ran.ip
            &&& patched.state == ran.state
            &&& patched.stack == ran.stack
        }),
{
    let r0 = s.registers[0];
    let r1 = s.registers[1];
    let r2 = s.registers[2];
    let ret = (s.ip + 2) as u16;
    lemma_bitwise_routine_fetches(s.memory);
    assert(spec_fetch(s.memory, s.ip) == Some(Opcode::Call(Val::Num(2125))));
    lemma_step_call_imm(s, 2125);
    let s1 = spec_step(s).0;
    lemma_step_push_reg(s1, 1);
    let s2 = spec_step(s1).0;
    lemma_step_push_reg(s2, 2);
    let s3 = spec_step(s2).0;
    lemma_step_and_regs(s3, 2, 0, 1);
    let s4 = spec_step(s3).0;
    let v_and = mask15((r0 & r1) as int);
    assert(s4.registers =~= s.registers.update(2, v_and));
    lemma_step_not_reg(s4, 2, 2);
    let s5 = spec_step(s4).0;
    let v_not = mask15((!v_and) as int);
    assert(s5.registers =~= s.registers.update(2, v_not));
    lemma_step_or_regs(s5, 0, 0, 1);
    let s6 = spec_step(s5).0;
    let v_or = mask15((r0 | r1) as int);
    assert(s6.registers =~= s.registers.update(2, v_not).update(0, v_or));
    lemma_step_and_regs(s6, 0, 0, 2);
    let s7 = spec_step(s6).0;
    let v_res = mask15((v_or & v_not) as int);
    assert(v_res == spec_bitwise_2125(r0, r1));
    assert(s7.registers =~= s.registers.update(2, v_not).update(0, v_res));
    assert(s7.stack == s.stack.push(ret).push(r1).push(r2));
    lemma_step_pop_reg(s7, 2);
    let s8 = spec_step(s7).0;
    assert(s7.stack.last() == r2 && s7.stack.drop_last() =~= s.stack.push(ret).push(r1));
    assert(s8.registers =~= s.registers.update(0, v_res));
    lemma_step_pop_reg(s8, 1);
    let s9 = spec_step(s8).0;
    assert(s8.stack.last() == r1 && s8.stack.drop_last() =~= s.stack.push(ret));
    assert(s9.registers =~= s.registers.update(0, v_res));
    lemma_step_ret_nonempty(s9);
    let s10 = spec_step(s9).0;
    assert(s9.stack.last() == ret && s9.stack.drop_last() =~= s.stack);
    assert(spec_step_n(s, 10) == s10) by {
        reveal_with_fuel(spec_step_n, 11);
    }
    let sp = AbsVm { fn_patching: true, ..s };
    assert(spec_fetch(sp.memory, sp.ip) == Some(Opcode::Call(Val::Num(2125))));
    lemma_step_call_patched_2125(sp);
}

/// Step helpers for the instruction shapes of the recursion routine.
proof fn lemma_step_jt_reg_taken(s: AbsVm, k: usize, t: u16)
    requires
        s.wf(),
        s.state == VmState::Running,
        !s.breakpoints.contains(s.ip as usize),
        spec_fetch(s.memory, s.ip) == Some(Opcode::Jt(Val::Reg(k), Val::Num(t))),
        k < 8,
        s.registers[k as int] != 0,
    ensures
        spec_step(s).1 is Ok,
        ({
            let s2 = spec_step(s).0;
            &&& s2.memory == s.memory
            &&& s2.registers == s.registers
            &&& s2.stack == s.stack
            &&& s2.ip == t as int
            &&& s2.state == VmState::Running
            &&& s2.breakpoints == s.breakpoints
            &&& s2.fn_patching == s.fn_patching
            &&& s2.wf()
        }),
{
}

proof fn lemma_step_jt_reg_untaken(s: AbsVm, k: usize, t: u16)
    requires
        s.wf(),
        s.state == VmState::Running,
        !s.breakpoints.contains(s.ip as usize),
        spec_fetch(s.memory, s.ip) == Some(Opcode::Jt(Val::Reg(k), Val::Num(t))),
        k < 8,
        s.registers[k as int] == 0,
    ensures
        spec_step(s).1 is Ok,
        ({
            let s2 = spec_step(s).0;
            &&& s2.memory == s.memory
            &&& s2.registers == s.registers
            &&& s2.stack == s.stack
            &&& s2.ip == s.ip + 3
            &&& s2.state == VmState::Running
            &&& s2.breakpoints == s.breakpoints
            &&& s2.fn_patching == s.fn_patching
            &&& s2.wf()
        }),
{
}

proof fn lemma_step_add_reg_imm(s: AbsVm, d: usize, a: usize, m: u16)
    requires
        s.wf(),
        s.state == VmState::Running,
        !s.breakpoints.contains(s.ip as usize),
        spec_fetch(s.memory, s.ip) == Some(Opcode::Add(Val::Reg(d), Val::Reg(a), Val::Num(m))),
        d < 8 && a < 8,
    ensures
        spec_step(s).1 is Ok,
        ({
            let s2 = spec_step(s).0;
            &&& s2.memory == s.memory
            &&& s2.registers == s.registers.update(d as int, mask15(s.registers[a as int] + m))
            &&& s2.stack == s.stack
            &&& s2.ip == s.ip + 4
            &&& s2.state == VmState::Running
            &&& s2.breakpoints == s.breakpoints
            &&& s2.fn_patching == s.fn_patching
            &&& s2.wf()
        }),
{
}

proof fn lemma_step_assign_reg(s: AbsVm, d: usize, a: usize)
    requires
        s.wf(),
        s.state == VmState::Running,
        !s.breakpoints.contains(s.ip as usize),
        spec_fetch(s.memory, s.ip) == Some(Opcode::Assign(Val::Reg(d), Val::Reg(a))),
        d < 8 && a < 8,
    ensures
        spec_step(s).1 is Ok,
        ({
            let s2 = spec_step(s).0;
            &&& s2.memory == s.memory
            &&& s2.registers == s.registers.update(d as int, s.registers[a as int])
            &&& s2.stack == s.stack
            &&& s2.ip == s.ip + 3
            &&& s2.state == VmState::Running
            &&& s2.breakpoints == s.breakpoints
            &&& s2.fn_patching == s.fn_patching
            &&& s2.wf()
        }),
{
}

/// Iterated stepping splits at any point.
proof fn lemma_step_n_add(s: AbsVm, a: nat, b: nat)
    ensures
        spec_step_n(s, a + b) == spec_step_n(spec_step_n(s, a), b),
    decreases a,
{
    if a > 0 {
        lemma_step_n_add(spec_step(s).0, (a - 1) as nat, b);
    }
}

/// The memory image of the recursion routine the machine's native
/// patch replaces: the seventeen instructions at its designated entry.
pub open spec fn ack_routine_in_memory(mem: Seq<u16>) -> bool {
    &&& mem[6027] == 7 && mem[6028] == 32768 && mem[6029] == 6035  // Jt r0, 6035
    &&& mem[6030] == 9 && mem[6031] == 32768 && mem[6032] == 32769 && mem[6033]
        == 1  // Add r0, r1, 1
    &&& mem[6034] == 18  // Ret
    &&& mem[6035] == 7 && mem[6036] == 32769 && mem[6037] == 6048  // Jt r1, 6048
    &&& mem[6038] == 9 && mem[6039] == 32768 && mem[6040] == 32768 && mem[6041]
        == 32767  // Add r0, r0, 32767
    &&& mem[6042] == 1 && mem[6043] == 32769 && mem[6044] == 32775  // Set r1, r7
    &&& mem[6045] == 17 && mem[6046] == 6027  // Call 6027
    &&& mem[6047] == 18  // Ret
    &&& mem[6048] == 2 && mem[6049] == 32768  // Push r0
    &&& mem[6050] == 9 && mem[6051] == 32769 && mem[6052] == 32769 && mem[6053]
        == 32767  // Add r1, r1, 32767
    &&& mem[6054] == 17 && mem[6055] == 6027  // Call 6027
    &&& mem[6056] == 1 && mem[6057] == 32769 && mem[6058] == 32768  // Set r1, r0
    &&& mem[6059] == 3 && mem[6060] == 32768  // Pop r0
    &&& mem[6061] == 9 && mem[6062] == 32768 && mem[6063] == 32768 && mem[6064]
        == 32767  // Add r0, r0, 32767
    &&& mem[6065] == 17 && mem[6066] == 6027  // Call 6027
    &&& mem[6067] == 18  // Ret
}

/// The seventeen fetches of the recursion routine, read off its image.
proof fn lemma_ack_routine_fetches(mem: Seq<u16>)
    requires
        mem.len() == 32768,
        ack_routine_in_memory(mem),
    ensures
        spec_fetch(mem, 6027) == Some(Opcode::Jt(Val::Reg(0), Val::Num(6035))),
        spec_fetch(mem, 6030) == Some(Opcode::Add(Val::Reg(0), Val::Reg(1), Val::Num(1))),
        spec_fetch(mem, 6034) == Some(Opcode::Ret),
        spec_fetch(mem, 6035) == Some(Opcode::Jt(Val::Reg(1), Val::Num(6048))),
        spec_fetch(mem, 6038) == Some(Opcode::Add(Val::Reg(0), Val::Reg(0), Val::Num(32767))),
        spec_fetch(mem, 6042) == Some(Opcode::Assign(Val::Reg(1), Val::Reg(7))),
        spec_fetch(mem, 6045) == Some(Opcode::Call(Val::Num(6027))),
        spec_fetch(mem, 6047) == Some(Opcode::Ret),
        spec_fetch(mem, 6048) == Some(Opcode::Push(Val::Reg(0))),
        spec_fetch(mem, 6050) == Some(Opcode::Add(Val::Reg(1), Val::Reg(1), Val::Num(32767))),
        spec_fetch(mem, 6054) == Some(Opcode::Call(Val::Num(6027))),
        spec_fetch(mem, 6056) == Some(Opcode::Assign(Val::Reg(1), Val::Reg(0))),
        spec_fetch(mem, 6059) == Some(Opcode::Pop(Val::Reg(0))),
        spec_fetch(mem, 6061) == Some(Opcode::Add(Val::Reg(0), Val::Reg(0), Val::Num(32767))),
        spec_fetch(mem, 6065) == Some(Opcode::Call(Val::Num(6027))),
        spec_fetch(mem, 6067) == Some(Opcode::Ret),
{
}

/// Interpreting the recursion routine from its entry computes exactly
/// its two specified register results: some number of steps later the
/// machine has popped its return address and jumped to it, with
/// registers 0 and 1 holding the specified pair, every other register,
/// the memory and the rest of the stack untouched.
proof fn lemma_ack_routine_runs(t: AbsVm) -> (n: nat)
    requires
        t.wf(),
        t.state == VmState::Running,
        t.breakpoints == Seq::<usize>::empty(),
        !t.fn_patching,
        ack_routine_in_memory(t.memory),
        t.ip == 6027,
        t.stack.len() > 0,
        t.registers[0] < 32768,
        t.registers[1] < 32768,
        t.registers[7] < 32768,
    ensures
        ({
            let f = spec_step_n(t, n);
            let res = spec_ack(t.registers[0], t.registers[1], t.registers[7]);
            &&& f.wf()
            &&& f.registers == t.registers.update(0, res.0).update(1, res.1)
            &&& f.memory == t.memory
            &&& f.stack == t.stack.drop_last()
            &&& f.ip == t.stack.last() as int
            &&& f.state == VmState::Running
            &&& f.breakpoints == t.breakpoints
            &&& f.fn_patching == t.fn_patching
        }),
    decreases t.registers[0], t.registers[1], 2int,
{
    if t.registers[0] == 0 {
        lemma_ack_routine_base(t)
    } else if t.registers[1] == 0 {
        lemma_ack_routine_outer(t)
    } else {
        lemma_ack_routine_inner(t)
    }
}

/// The base branch of the routine: no recursion.
#[verifier::rlimit(100)]
#[verifier::spinoff_prover]
proof fn lemma_ack_routine_base(t: AbsVm) -> (n: nat)
    requires
        t.wf(),
        t.state == VmState::Running,
        t.breakpoints == Seq::<usize>::empty(),
        !t.fn_patching,
        ack_routine_in_memory(t.memory),
        t.ip == 6027,
        t.stack.len() > 0,
        t.registers[0] < 32768,
        t.registers[1] < 32768,
        t.registers[7] < 32768,
        t.registers[0] == 0,
    ensures
        ({
            let f = spec_step_n(t, n);
            let res = spec_ack(t.registers[0], t.registers[1], t.registers[7]);
            &&& f.wf()
            &&& f.registers == t.registers.update(0, res.0).update(1, res.1)
            &&& f.memory == t.memory
            &&& f.stack == t.stack.drop_last()
            &&& f.ip == t.stack.last() as int
            &&& f.state == VmState::Running
            &&& f.breakpoints == t.breakpoints
            &&& f.fn_patching == t.fn_patching
        }),
    decreases t.registers[0], t.registers[1], 1int,
{
    lemma_ack_routine_fetches(t.memory);
    let r1 = t.registers[1];
    let res = spec_ack(0, r1, t.registers[7]);
    lemma_step_jt_reg_untaken(t, 0, 6035);
    let s1 = spec_step(t).0;
    lemma_step_add_reg_imm(s1, 0, 1, 1);
    let s2 = spec_step(s1).0;
    lemma_step_ret_nonempty(s2);
    let s3 = spec_step(s2).0;
    assert(s3.registers =~= t.registers.update(0, res.0).update(1, res.1));
    assert(spec_step_n(t, 3) == s3) by {
        reveal_with_fuel(spec_step_n, 4);
    }
    3
}

/// The branch with register 1 exhausted: one recursive call.
#[verifier::rlimit(100)]
#[verifier::spinoff_prover]
proof fn lemma_ack_routine_outer(t: AbsVm) -> (n: nat)
    requires
        t.wf(),
        t.state == VmState::Running,
        t.breakpoints == Seq::<usize>::empty(),
        !t.fn_patching,
        ack_routine_in_memory(t.memory),
        t.ip == 6027,
        t.stack.len() > 0,
        t.registers[0] < 32768,
        t.registers[1] < 32768,
        t.registers[7] < 32768,
        t.registers[0] != 0,
        t.registers[1] == 0,
    ensures
        ({
            let f = spec_step_n(t, n);
            let res = spec_ack(t.registers[0], t.registers[1], t.registers[7]);
            &&& f.wf()
            &&& f.registers == t.registers.update(0, res.0).update(1, res.1)
            &&& f.memory == t.memory
            &&& f.stack == t.stack.drop_last()
            &&& f.ip == t.stack.last() as int
            &&& f.state == VmState::Running
            &&& f.breakpoints == t.breakpoints
            &&& f.fn_patching == t.fn_patching
        }),
    decreases t.registers[0], t.registers[1], 1int,
{
    lemma_ack_routine_fetches(t.memory);
    let r0 = t.registers[0];
    let r7 = t.registers[7];
    let res = spec_ack(r0, 0, r7);
    lemma_step_jt_reg_taken(t, 0, 6035);
    let s1 = spec_step(t).0;
    lemma_step_jt_reg_untaken(s1, 1, 6048);
    let s2 = spec_step(s1).0;
    lemma_step_add_reg_imm(s2, 0, 0, 32767);
    let s3 = spec_step(s2).0;
    assert(mask15(r0 + 32767) == r0 - 1);
    lemma_step_assign_reg(s3, 1, 7);
    let s4 = spec_step(s3).0;
    lemma_step_call_imm(s4, 6027);
    let s5 = spec_step(s4).0;
    assert(s5.registers =~= t.registers.update(0, (r0 - 1) as u16).update(1, r7));
    assert(s5.registers[0] == r0 - 1 && s5.registers[1] == r7 && s5.registers[7] == r7);
    let inner = lemma_ack_routine_runs(s5);
    let s6 = spec_step_n(s5, inner);
    assert(s6.stack =~= t.stack);
    assert(s6.ip == 6047);
    let res1 = spec_ack((r0 - 1) as u16, r7, r7);
    assert(s6.registers =~= t.registers.update(0, res1.0).update(1, res1.1));
    lemma_step_ret_nonempty(s6);
    let s7 = spec_step(s6).0;
    assert(res == res1);
    assert(s7.registers =~= t.registers.update(0, res.0).update(1, res.1));
    let n: nat = 5 + inner + 1;
    assert(spec_step_n(t, 5) == s5) by {
        reveal_with_fuel(spec_step_n, 6);
    }
    lemma_step_n_add(t, 5, inner);
    assert(spec_step_n(t, 5 + inner) == s6);
    lemma_step_n_add(t, 5 + inner, 1);
    assert(spec_step_n(s6, 1) == s7) by {
        reveal_with_fuel(spec_step_n, 2);
    }
    assert(spec_step_n(t, n) == s7);
    n
}

/// The general branch: recurse on the decremented counter, then hand
/// the saved register to the tail.
#[verifier::rlimit(100)]
#[verifier::spinoff_prover]
proof fn lemma_ack_routine_inner(t: AbsVm) -> (n: nat)
    requires
        t.wf(),
        t.state == VmState::Running,
        t.breakpoints == Seq::<usize>::empty(),
        !t.fn_patching,
        ack_routine_in_memory(t.memory),
        t.ip == 6027,
        t.stack.len() > 0,
        t.registers[0] < 32768,
        t.registers[1] < 32768,
        t.registers[7] < 32768,
        t.registers[0] != 0,
        t.registers[1] != 0,
    ensures
        ({
            let f = spec_step_n(t, n);
            let res = spec_ack(t.registers[0], t.registers[1], t.registers[7]);
            &&& f.wf()
            &&& f.registers == t.registers.update(0, res.0).update(1, res.1)
            &&& f.memory == t.memory
            &&& f.stack == t.stack.drop_last()
            &&& f.ip == t.stack.last() as int
            &&& f.state == VmState::Running
            &&& f.breakpoints == t.breakpoints
            &&& f.fn_patching == t.fn_patching
        }),
    decreases t.registers[0], t.registers[1], 1int,
{
    lemma_ack_routine_fetches(t.memory);
    let r0 = t.registers[0];
    let r1 = t.registers[1];
    let r7 = t.registers[7];
    let res = spec_ack(r0, r1, r7);
    lemma_step_jt_reg_taken(t, 0, 6035);
    let s1 = spec_step(t).0;
    lemma_step_jt_reg_taken(s1, 1, 6048);
    let s2 = spec_step(s1).0;
    lemma_step_push_reg(s2, 0);
    let s3 = spec_step(s2).0;
    lemma_step_add_reg_imm(s3, 1, 1, 32767);
    let s4 = spec_step(s3).0;
    assert(mask15(r1 + 32767) == r1 - 1);
    lemma_step_call_imm(s4, 6027);
    let s5 = spec_step(s4).0;
    assert(s5.registers =~= t.registers.update(1, (r1 - 1) as u16));
    assert(s5.registers[0] == r0 && s5.registers[1] == r1 - 1 && s5.registers[7] == r7);
    assert(s5.stack == t.stack.push(r0).push(6056u16));
    let inner1 = lemma_ack_routine_runs(s5);
    let s6 = spec_step_n(s5, inner1);
    let res1 = spec_ack(r0, (r1 - 1) as u16, r7);
    assert(s6.stack =~= t.stack.push(r0));
    assert(s6.ip == 6056);
    assert(s6.registers =~= t.registers.update(0, res1.0).update(1, res1.1));
    lemma_ack_in_domain(r0, (r1 - 1) as u16, r7);
    assert(s6.stack.last() == r0 && s6.stack.len() >= 2);
    let m = lemma_ack_routine_tail(s6);
    let s12 = spec_step_n(s6, m);
    let res2 = spec_ack((r0 - 1) as u16, res1.0, r7);
    assert(s12.registers =~= t.registers.update(0, res.0).update(1, res.1));
    assert(s12.stack =~= t.stack.drop_last());
    assert(s12.ip == t.stack.last() as int);
    let n: nat = 5 + inner1 + m;
    assert(spec_step_n(t, 5) == s5) by {
        reveal_with_fuel(spec_step_n, 6);
    }
    lemma_step_n_add(t, 5, inner1);
    assert(spec_step_n(t, 5 + inner1) == s6);
    lemma_step_n_add(t, 5 + inner1, m);
    assert(spec_step_n(t, n) == s12);
    n
}

/// The tail of the general branch, entered with the first recursion
/// done: restore the saved counter from the stack, recurse once more,
/// and return.
#[verifier::rlimit(100)]
#[verifier::spinoff_prover]
proof fn lemma_ack_routine_tail(u: AbsVm) -> (n: nat)
    requires
        u.wf(),
        u.state == VmState::Running,
        u.breakpoints == Seq::<usize>::empty(),
        !u.fn_patching,
        ack_routine_in_memory(u.memory),
        u.ip == 6056,
        u.stack.len() >= 2,
        u.stack.last() != 0,
        u.stack.last() < 32768,
        u.registers[0] < 32768,
        u.registers[7] < 32768,
    ensures
        ({
            let f = spec_step_n(u, n);
            let x = u.stack.last();
            let res = spec_ack((x - 1) as u16, u.registers[0], u.registers[7]);
            &&& f.wf()
            &&& f.registers == u.registers.update(0, res.0).update(1, res.1)
            &&& f.memory == u.memory
            &&& f.stack == u.stack.drop_last().drop_last()
            &&& f.ip == u.stack.drop_last().last() as int
            &&& f.state == VmState::Running
            &&& f.breakpoints == u.breakpoints
            &&& f.fn_patching == u.fn_patching
        }),
    decreases u.stack.last(), 0int, 0int,
{
    lemma_ack_routine_fetches(u.memory);
    let x = u.stack.last();
    let a0 = u.registers[0];
    let r7 = u.registers[7];
    let res = spec_ack((x - 1) as u16, a0, r7);
    lemma_step_assign_reg(u, 1, 0);
    let s7 = spec_step(u).0;
    assert(s7.registers =~= u.registers.update(1, a0));
    lemma_step_pop_reg(s7, 0);
    let s8 = spec_step(s7).0;
    assert(s8.registers =~= u.registers.update(0, x).update(1, a0));
    assert(s8.stack == u.stack.drop_last());
    lemma_step_add_reg_imm(s8, 0, 0, 32767);
    let s9 = spec_step(s8).0;
    assert(mask15(x + 32767) == x - 1);
    assert(s9.registers =~= u.registers.update(0, (x - 1) as u16).update(1, a0));
    lemma_step_call_imm(s9, 6027);
    let s10 = spec_step(s9).0;
    assert(s10.registers[0] == x - 1 && s10.registers[1] == a0 && s10.registers[7] == r7);
    assert(s10.stack == u.stack.drop_last().push(6067u16));
    let inner = lemma_ack_routine_runs(s10);
    let s11 = spec_step_n(s10, inner);
    assert(s11.stack =~= u.stack.drop_last());
    assert(s11.ip == 6067);
    assert(s11.registers =~= u.registers.update(0, res.0).update(1, res.1));
    assert(s11.stack.len() >= 1);
    lemma_step_ret_nonempty(s11);
    let s12 = spec_step(s11).0;
    assert(s12.registers =~= u.registers.update(0, res.0).update(1, res.1));
    let n: nat = 4 + inner + 1;
    assert(spec_step_n(u, 4) == s10) by {
        reveal_with_fuel(spec_step_n, 5);
    }
    lemma_step_n_add(u, 4, inner);
    assert(spec_step_n(u, 4 + inner) == s11);
    lemma_step_n_add(u, 4 + inner, 1);
    assert(spec_step_n(s11, 1) == s12) by {
        reveal_with_fuel(spec_step_n, 2);
    }
    assert(spec_step_n(u, n) == s12);
    n
}

proof fn lemma_step_call_patched_6027(s: AbsVm)
    requires
        s.wf(),
        s.state == VmState::Running,
        !s.breakpoints.contains(s.ip as usize),
        spec_fetch(s.memory, s.ip) == Some(Opcode::Call(Val::Num(6027))),
        s.fn_patching,
    ensures
        spec_step(s).1 is Ok,
        ({
            let s2 = spec_step(s).0;
            let res = spec_ack(s.registers[0], s.registers[1], s.registers[7]);
            &&& s2.memory == s.memory
            &&& s2.registers == s.registers.update(0, res.0).update(1, res.1)
            &&& s2.stack == s.stack
            &&& s2.ip == s.ip + 2
            &&& s2.state == VmState::Running
        }),
{
}

/// Native patching is faithful for the recursion routine: from a call
/// to its entry, interpreting the call and the whole recursion reaches
/// exactly the registers, memory, stack, instruction pointer and run
/// state that the natively patched call reaches in one step, the
/// pushed return address consumed by the synthetic return.
#[verifier::rlimit(100)]
#[verifier::spinoff_prover]
pub proof fn lemma_patched_6027_faithful(s: AbsVm)
    requires
        s.wf(),
        s.state == VmState::Running,
        s.breakpoints == Seq::<usize>::empty(),
        !s.fn_patching,
        0 <= s.ip,
        s.ip + 2 <= 32768,
        s.memory[s.ip] == 17,
        s.memory[s.ip + 1] == 6027,
        ack_routine_in_memory(s.memory),
        s.registers[0] < 32768,
        s.registers[1] < 32768,
        s.registers[7] < 32768,
    ensures
        exists|n: nat|
            {
                let ran = #[trigger] spec_step_n(s, n);
                let patched = spec_step(AbsVm { fn_patching: true, ..s }).0;
                let res = spec_ack(s.registers[0], s.registers[1], s.registers[7]);
                &&& ran.registers == s.registers.update(0, res.0).update(1, res.1)
                &&& ran.memory == s.memory
                &&& ran.stack == s.stack
                &&& ran.ip == s.ip + 2
                &&& ran.state == VmState::Running
                &&& patched.registers == ran.registers
                &&& patched.memory == ran.memory
                &&& patched.ip == ran.ip
                &&& patched.state == ran.state
                &&& patched.stack == ran.stack
            },
{
    assert(spec_fetch(s.memory, s.ip) == Some(Opcode::Call(Val::Num(6027))));
    lemma_step_call_imm(s, 6027);
    let s1 = spec_step(s).0;
    let inner = lemma_ack_routine_runs(s1);
    let s2 = spec_step_n(s1, inner);
    assert(s2.stack =~= s.stack);
    assert(spec_step_n(s, 1) == s1) by {
        reveal_with_fuel(spec_step_n, 2);
    }
    lemma_step_n_add(s, 1, inner);
    let n: nat = 1 + inner;
    assert(spec_step_n(s, n) == s2);
    let sp = AbsVm { fn_patching: true, ..s };
    assert(spec_fetch(sp.memory, sp.ip) == Some(Opcode::Call(Val::Num(6027))));
    lemma_step_call_patched_6027(sp);
    let patched = spec_step(sp).0;
    assert(spec_step_n(s, n).registers == s.registers.update(
        0,
        spec_ack(s.registers[0], s.registers[1], s.registers[7]).0,
    ).update(1, spec_ack(s.registers[0], s.registers[1], s.registers[7]).1));
}

/// After any successful step that leaves the machine waiting for
/// input, no input is pending and the instruction at the rewound
/// pointer is the `In` that will be re-executed on resumption.
pub proof fn lemma_waiting_for_input_invariant(s: AbsVm)
    requires
        spec_step(s).1 is Ok,
        spec_step(s).0.state == VmState::WaitingForInput,
    ensures
        spec_step(s).0.input.len() == 0,
        match spec_fetch(spec_step(s).0.memory, spec_step(s).0.ip) {
            Option::Some(op) => op matches Opcode::In(_),
            Option::None => false,
        },
{
}

/// The value domains the architecture promises: every register below
/// 32768, every stack entry below 32768, and the instruction pointer
/// inside memory.
pub open spec fn values_ok(s: AbsVm) -> bool {
    &&& forall|i: int| 0 <= i < s.registers.len() ==> (#[trigger] s.registers[i]) < 32768
    &&& forall|i: int| 0 <= i < s.stack.len() ==> (#[trigger] s.stack[i]) < 32768
    &&& 0 <= s.ip < 32768
}

/// Memory whose every cell is an in-domain data word.
pub open spec fn mem_ok(s: AbsVm) -> bool {
    forall|i: int| 0 <= i < s.memory.len() ==> (#[trigger] s.memory[i]) < 32768
}

/// Every successful step preserves the architecture's value domains,
/// provided memory holds only in-domain words (a raw image may not:
/// loads are unmasked) and the fetched instruction ends below the top
/// of memory (an instruction ending exactly at the top pushes or falls
/// through to address 32768).
pub proof fn lemma_step_preserves_domains(s: AbsVm)
    requires
        s.wf(),
        values_ok(s),
        mem_ok(s),
        spec_step(s).1 is Ok,
        match spec_fetch(s.memory, s.ip) {
            Option::Some(op) => s.ip + spec_size(op) < 32768,
            Option::None => true,
        },
    ensures
        spec_step(s).0.wf(),
        values_ok(spec_step(s).0),
        mem_ok(spec_step(s).0),
{
    let op = spec_fetch(s.memory, s.ip)->Some_0;
    crate::assembly::lemma_fetch_wf(s.memory, s.ip);
    match op {
        Opcode::Call(a) => {
            if s.fn_patching && spec_val(s, a) == Some(6027u16) {
                lemma_ack_in_domain(s.registers[0], s.registers[1], s.registers[7]);
            }
        },
        _ => {},
    }
}

/// The routine at 6027 returns in-domain values for in-domain
/// arguments.
pub proof fn lemma_ack_in_domain(r0: u16, r1: u16, r7: u16)
    requires
        r0 < 32768,
        r1 < 32768,
        r7 < 32768,
    ensures
        spec_ack(r0, r1, r7).0 < 32768,
        spec_ack(r0, r1, r7).1 < 32768,
    decreases r0, r1,
{
    if r0 == 0 {
    } else if r1 == 0 {
        lemma_ack_in_domain((r0 - 1) as u16, r7, r7);
    } else {
        lemma_ack_in_domain(r0, (r1 - 1) as u16, r7);
        let first = spec_ack(r0, (r1 - 1) as u16, r7);
        lemma_ack_in_domain((r0 - 1) as u16, first.0, r7);
    }
}

/// Suspension on input is idempotent: a machine that suspends at `In`,
/// is fed `line`, and steps once, reaches the same registers, memory,
/// stack, instruction pointer, run state and remaining input as the
/// machine that had `line` pending all along — only the flush of the
/// output buffer into the message log distinguishes the two runs.
pub proof fn lemma_input_suspension_resume(s: AbsVm, a: Val, line: Seq<u8>)
    requires
        s.wf(),
        s.state == VmState::Running,
        !s.breakpoints.contains(s.ip as usize),
        spec_fetch(s.memory, s.ip) == Some(Opcode::In(a)),
        spec_reg(a) is Some,
        s.input.len() == 0,
        line.len() > 0,
    ensures
        ({
            let suspended = spec_step(s).0;
            let fed = AbsVm { input: line, state: VmState::Running, ..suspended };
            let resumed = spec_step(fed).0;
            let direct = spec_step(AbsVm { input: line, ..s }).0;
            &&& spec_step(s).1 is Ok
            &&& suspended.state == VmState::WaitingForInput
            &&& spec_step(fed).1 is Ok
            &&& spec_step(AbsVm { input: line, ..s }).1 is Ok
            &&& resumed.registers == direct.registers
            &&& resumed.memory == direct.memory
            &&& resumed.stack == direct.stack
            &&& resumed.ip == direct.ip
            &&& resumed.state == direct.state
            &&& resumed.input == direct.input
        }),
{
}

} // verus!
