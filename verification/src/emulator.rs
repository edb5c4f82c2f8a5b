//! The execution engine: the machine state, the stepping primitive, the
//! cooperative input protocol, the iteration driver, and the debug
//! surface of breakpoints, tracing, memory scanning and patching.
//!
//! Every mutating operation is specified against the abstract state of
//! [`crate::semantics`]: `step` refines `spec_step` exactly.

use vstd::prelude::*;

use std::collections::HashMap;

use crate::assembly::{
    spec_assemble, spec_disassemble_n, spec_fetch, spec_size, spec_tag, wf_op, Opcode, Val,
};
use crate::errors::VmError;
use crate::semantics::{
    exec_ok, mask15, obs_eq, pc_bump, spec_ack, spec_bitwise_2125, spec_exec, spec_finish,
    spec_reg, spec_resolved, spec_step, spec_val, AbsVm, VmState,
};

verus! {

broadcast use vstd::std_specs::hash::group_hash_axioms;

/// The packed result pair memoized for one argument triple.
pub open spec fn spec_ack_packed(r0: u16, r1: u16, r7: u16) -> u64 {
    let res = spec_ack(r0, r1, r7);
    (res.0 as u64) | ((res.1 as u64) << 16)
}

/// No address stands twice in a breakpoint list.
pub open spec fn unique_addrs(s: Seq<usize>) -> bool {
    forall|i: int, j: int| 0 <= i < j < s.len() ==> s[i] != s[j]
}

/// The virtual machine: memory, registers, stack, instruction pointer,
/// run state, the buffered character I/O, and the debug auxiliaries.
#[derive(Debug)]
pub struct Vm {
    memory: Vec<u16>,
    registers: Vec<u16>,
    stack: Vec<u16>,
    /// Instruction pointer: address of the next instruction to fetch.
    ip: usize,
    /// Count of instructions executed; diagnostic only.
    pc: u64,
    state: VmState,
    /// Characters produced since the last flush.
    output_buffer: Vec<char>,
    /// Pending input bytes, front first.
    input_buffer: Vec<u8>,
    /// Flushed output, one entry per flush.
    messages: Vec<String>,
    /// Bitmask over opcode tags selecting the traced instructions.
    traced_opcodes: u32,
    trace_buffer: Vec<(usize, Opcode, Option<Opcode>)>,
    /// Whether designated call targets are emulated natively.
    fn_patching: bool,
    breakpoints: Vec<usize>,
    /// Memoized results of the routine at 6027, keyed by its packed
    /// argument triple.
    cache_6027: HashMap<u64, u64>,
    /// Memory-scan shadow: one optional snapshot word per cell.
    scanmem: Vec<Option<u16>>,
}

impl View for Vm {
    type V = AbsVm;

    closed spec fn view(&self) -> AbsVm {
        AbsVm {
            memory: self.memory@,
            registers: self.registers@,
            stack: self.stack@,
            ip: self.ip as int,
            pc: self.pc as int,
            state: self.state,
            output: self.output_buffer@,
            input: self.input_buffer@,
            messages: self.messages.deep_view(),
            traced: self.traced_opcodes,
            trace: self.trace_buffer@,
            fn_patching: self.fn_patching,
            breakpoints: self.breakpoints@,
            scanmem: self.scanmem@,
        }
    }
}

impl Vm {
    /// Every memoized entry packs the arguments of the routine at 6027
    /// into its key and the specified result pair into its value.
    pub closed spec fn cache_ok(&self) -> bool {
        forall|k: u64| #[trigger]
            self.cache_6027@.contains_key(k) ==> k >> 48 == 0 && self.cache_6027@[k]
                == spec_ack_packed(
                (k & 0xFFFF) as u16,
                ((k >> 16) & 0xFFFF) as u16,
                ((k >> 32) & 0xFFFF) as u16,
            )
    }

    /// The machine's structural invariant: the fixed sizes of its
    /// parts, each breakpoint address held at most once, and the
    /// correctness of the memo cache.  Established by `new` and
    /// preserved by every operation.
    pub closed spec fn inv(&self) -> bool {
        &&& self@.wf()
        &&& unique_addrs(self@.breakpoints)
        &&& self.cache_ok()
    }

    /// A machine with zeroed memory and registers, an empty stack and
    /// empty I/O buffers, ready to run at address 0.
    pub fn new() -> (vm: Vm)
        ensures
            vm.inv(),
            vm@.memory == Seq::new(32768, |i: int| 0u16),
            vm@.registers == Seq::new(8, |i: int| 0u16),
            vm@.stack == Seq::<u16>::empty(),
            vm@.ip == 0,
            vm@.pc == 0,
            vm@.state == VmState::Running,
            vm@.output == Seq::<char>::empty(),
            vm@.input == Seq::<u8>::empty(),
            vm@.messages == Seq::<Seq<char>>::empty(),
            vm@.traced == 0,
            vm@.trace == Seq::<(usize, Opcode, Option<Opcode>)>::empty(),
            vm@.fn_patching == false,
            vm@.breakpoints == Seq::<usize>::empty(),
            vm@.scanmem == Seq::new(32768, |i: int| None::<u16>),
    {
        let mut memory: Vec<u16> = Vec::new();
        let mut i: usize = 0;
        while i < 32768
            invariant
                i <= 32768,
                memory@ == Seq::new(i as nat, |j: int| 0u16),
            decreases 32768 - i,
        {
            memory.push(0u16);
            proof {
                assert(memory@ =~= Seq::new((i + 1) as nat, |j: int| 0u16));
            }
            i = i + 1;
        }
        let mut registers: Vec<u16> = Vec::new();
        let mut r: usize = 0;
        while r < 8
            invariant
                r <= 8,
                registers@ == Seq::new(r as nat, |j: int| 0u16),
            decreases 8 - r,
        {
            registers.push(0u16);
            proof {
                assert(registers@ =~= Seq::new((r + 1) as nat, |j: int| 0u16));
            }
            r = r + 1;
        }
        let mut scanmem: Vec<Option<u16>> = Vec::new();
        let mut k: usize = 0;
        while k < 32768
            invariant
                k <= 32768,
                scanmem@ == Seq::new(k as nat, |j: int| None::<u16>),
            decreases 32768 - k,
        {
            scanmem.push(None);
            proof {
                assert(scanmem@ =~= Seq::new((k + 1) as nat, |j: int| None::<u16>));
            }
            k = k + 1;
        }
        let vm = Vm {
            memory,
            registers,
            stack: Vec::new(),
            ip: 0,
            pc: 0,
            state: VmState::Running,
            output_buffer: Vec::new(),
            input_buffer: Vec::new(),
            messages: Vec::new(),
            traced_opcodes: 0,
            trace_buffer: Vec::new(),
            fn_patching: false,
            breakpoints: Vec::new(),
            cache_6027: HashMap::new(),
            scanmem,
        };
        proof {
            assert(vm.messages.deep_view() =~= Seq::<Seq<char>>::empty());
        }
        vm
    }

    /// Copy a program image over the first cells of memory; the
    /// remaining cells keep their contents.
    pub fn load_program_from_mem(&mut self, program: &[u16])
        requires
            old(self).inv(),
            program@.len() <= 32768,
        ensures
            final(self).inv(),
            final(self)@ == (AbsVm {
                memory: Seq::new(
                    32768,
                    |i: int|
                        if i < program@.len() {
                            program@[i]
                        } else {
                            old(self)@.memory[i]
                        },
                ),
                ..old(self)@
            }),
    {
        let mut i: usize = 0;
        proof {
            assert(self@ =~= (AbsVm {
                memory: Seq::new(
                    32768,
                    |j: int|
                        if j < 0 {
                            program@[j]
                        } else {
                            old(self)@.memory[j]
                        },
                ),
                ..old(self)@
            }));
        }
        while i < program.len()
            invariant
                old(self).inv(),
                self.inv(),
                program@.len() <= 32768,
                i <= program@.len(),
                self@ == (AbsVm {
                    memory: Seq::new(
                        32768,
                        |j: int|
                            if j < i {
                                program@[j]
                            } else {
                                old(self)@.memory[j]
                            },
                    ),
                    ..old(self)@
                }),
            decreases program@.len() - i,
        {
            self.memory[i] = program[i];
            proof {
                assert(self@.memory =~= Seq::new(
                    32768,
                    |j: int|
                        if j < i + 1 {
                            program@[j]
                        } else {
                            old(self)@.memory[j]
                        },
                ));
            }
            i = i + 1;
        }
    }

    /// The output flushed so far, one string per flush.
    pub fn get_messages(&self) -> (r: &Vec<String>)
        ensures
            r.deep_view() == self@.messages,
    {
        &self.messages
    }

    /// The machine's run state.
    pub fn get_state(&self) -> (r: VmState)
        ensures
            r == self@.state,
    {
        self.state
    }

    /// Overwrite one register with an in-domain value.
    pub fn set_register(&mut self, reg: usize, value: u16)
        requires
            old(self).inv(),
            reg < 8,
            value < 32768,
        ensures
            final(self).inv(),
            final(self)@ == (AbsVm {
                registers: old(self)@.registers.update(reg as int, value),
                ..old(self)@
            }),
    {
        self.registers[reg] = value;
    }

    /// The eight registers.
    pub fn get_registers(&self) -> (r: &Vec<u16>)
        ensures
            r@ == self@.registers,
    {
        &self.registers
    }

    /// Select which opcode tags are recorded in the trace.
    pub fn set_traced_opcodes(&mut self, traced: u32)
        requires
            old(self).inv(),
        ensures
            final(self).inv(),
            final(self)@ == (AbsVm { traced, ..old(self)@ }),
    {
        self.traced_opcodes = traced;
    }

    /// The trace recorded so far.
    pub fn get_trace_buffer(&self) -> (r: &Vec<(usize, Opcode, Option<Opcode>)>)
        ensures
            r@ == self@.trace,
    {
        &self.trace_buffer
    }

    /// Turn native emulation of the designated call targets on or off.
    pub fn set_fn_patching(&mut self, val: bool)
        requires
            old(self).inv(),
        ensures
            final(self).inv(),
            final(self)@ == (AbsVm { fn_patching: val, ..old(self)@ }),
    {
        self.fn_patching = val;
    }

    /// The breakpoint addresses.
    pub fn get_breakpoints(&self) -> (r: &Vec<usize>)
        ensures
            r@ == self@.breakpoints,
    {
        &self.breakpoints
    }

    /// The whole memory.
    pub fn get_mem(&self) -> (r: &Vec<u16>)
        ensures
            r@ == self@.memory,
    {
        &self.memory
    }

    /// The memory-scan shadow.
    pub fn get_scanmem(&self) -> (r: &Vec<Option<u16>>)
        ensures
            r@ == self@.scanmem,
    {
        &self.scanmem
    }

    /// Read one memory cell.
    pub fn mem_read(&self, offset: usize) -> (r: u16)
        requires
            self.inv(),
            offset < 32768,
        ensures
            r == self@.memory[offset as int],
    {
        self.memory[offset]
    }

    /// Overwrite one memory cell with a raw word.
    pub fn mem_set(&mut self, offset: usize, value: u16)
        requires
            old(self).inv(),
            offset < 32768,
        ensures
            final(self).inv(),
            final(self)@ == (AbsVm {
                memory: old(self)@.memory.update(offset as int, value),
                ..old(self)@
            }),
    {
        self.memory[offset] = value;
    }

    /// Decode the instruction stored at address `ip`.
    pub fn fetch(&self, ip: usize) -> (r: Result<Opcode, VmError>)
        ensures
            match r {
                Result::Ok(op) => spec_fetch(self@.memory, ip as int) == Some(op) && (self.inv()
                    ==> ip + spec_size(op) <= 32768),
                Result::Err(e) => spec_fetch(self@.memory, ip as int) is None && e
                    == VmError::Decode,
            },
    {
        let r = Opcode::fetch(self.memory.as_slice(), ip);
        proof {
            if self.inv() {
                match r {
                    Result::Ok(op) => {
                        assert(ip + 1 + crate::assembly::spec_arity(self@.memory[ip as int])
                            <= 32768);
                    },
                    Result::Err(_) => {},
                }
            }
        }
        r
    }

    /// The value an operand denotes for this machine, if it denotes one.
    pub fn get_value(&self, value: &Val) -> (r: Option<u16>)
        requires
            self.inv(),
        ensures
            r == spec_val(self@, *value),
    {
        match value {
            Val::Num(x) => Some(*x),
            Val::Reg(x) => if *x < 8 {
                Some(self.registers[*x])
            } else {
                None
            },
            Val::Invalid => None,
        }
    }

    /// The register index an operand names, if it names one.
    pub fn get_register(&self, value: &Val) -> (r: Option<usize>)
        ensures
            match r {
                Some(i) => spec_reg(*value) == Some(i as int),
                None => spec_reg(*value) is None,
            },
    {
        match value {
            Val::Num(_) => None,
            Val::Reg(x) => if *x < 8 {
                Some(*x)
            } else {
                None
            },
            Val::Invalid => None,
        }
    }

    /// Hand the machine one line of input while it is waiting for some:
    /// the line's bytes and a trailing newline become the pending input
    /// and the machine runs again.  Fails, changing nothing, when the
    /// machine is not waiting or input is still pending.
    pub fn feed(&mut self, line: &str) -> (r: Result<(), VmError>)
        requires
            old(self).inv(),
            vstd::string::is_ascii(line),
        ensures
            final(self).inv(),
            match r {
                Result::Ok(_) => old(self)@.state == VmState::WaitingForInput && old(
                    self,
                )@.input.len() == 0 && final(self)@ == (AbsVm {
                    input: line@.map_values(|c: char| c as u8).push(10u8),
                    state: VmState::Running,
                    ..old(self)@
                }),
                Result::Err(e) => final(self)@ == old(self)@ && ((e == VmError::NotWaiting && old(
                    self,
                )@.state != VmState::WaitingForInput) || (e == VmError::InputNotEmpty && old(
                    self,
                )@.state == VmState::WaitingForInput && old(self)@.input.len() != 0)),
            },
    {
        if self.state != VmState::WaitingForInput {
            return Err(VmError::NotWaiting);
        }
        if self.input_buffer.len() != 0 {
            return Err(VmError::InputNotEmpty);
        }
        let bytes = line.as_bytes();
        proof {
            broadcast use vstd::string::is_ascii_spec_bytes;

            assert(bytes@ =~= Seq::new(line@.len(), |i: int| line@.index(i) as u8));
        }
        let mut i: usize = 0;
        proof {
            assert(self@ =~= (AbsVm { input: bytes@.take(0), ..old(self)@ }));
        }
        while i < bytes.len()
            invariant
                old(self).inv(),
                self.inv(),
                i <= bytes@.len(),
                bytes@ == Seq::new(line@.len(), |j: int| line@.index(j) as u8),
                old(self)@.state == VmState::WaitingForInput,
                old(self)@.input.len() == 0,
                self@ == (AbsVm { input: bytes@.take(i as int), ..old(self)@ }),
            decreases bytes@.len() - i,
        {
            self.input_buffer.push(bytes[i]);
            proof {
                assert(bytes@.take(i as int).push(bytes@[i as int]) =~= bytes@.take(i + 1));
            }
            i = i + 1;
        }
        self.input_buffer.push(10u8);
        self.state = VmState::Running;
        proof {
            assert(bytes@.take(bytes@.len() as int) =~= bytes@);
            assert(bytes@ =~= line@.map_values(|c: char| c as u8));
        }
        Ok(())
    }

    /// Execute one instruction: refuse while not running, suspend on a
    /// breakpoint, otherwise fetch at `ip`, advance `ip` past the
    /// instruction before dispatching, and perform its effect.  Returns
    /// the address and the instruction executed.  A failed step other
    /// than a breakpoint leaves the machine unchanged.
    #[verifier::rlimit(100)]
    pub fn step(&mut self) -> (r: Result<(usize, Opcode), VmError>)
        requires
            old(self).inv(),
        ensures
            final(self).inv(),
            final(self)@ == spec_step(old(self)@).0,
            r == spec_step(old(self)@).1,
    {
        if self.state != VmState::Running {
            return Err(VmError::NotRunning);
        }
        if contains_addr(&self.breakpoints, self.ip) {
            self.state = VmState::HitBreakPoint;
            proof {
                assert(self@ =~= (AbsVm { state: VmState::HitBreakPoint, ..old(self)@ }));
            }
            return Err(VmError::Breakpoint);
        }
        let ip0 = self.ip;
        let opcode = match self.fetch(ip0) {
            Result::Ok(op) => op,
            Result::Err(e) => {
                return Err(e);
            },
        };
        let size = opcode.size();
        proof {
            assert(ip0 + 1 + crate::assembly::spec_arity(self@.memory[ip0 as int]) <= 32768);
        }
        let next_ip = ip0 + size;
        let traced_hit = (self.traced_opcodes & opcode.discriminant()) != 0;
        let resolved: Option<Opcode> = match opcode {
            Opcode::Call(Val::Reg(rr)) => if rr < 8 {
                Some(Opcode::Call(Val::Num(self.registers[rr])))
            } else {
                None
            },
            _ => None,
        };
        proof {
            assert(resolved == spec_resolved(old(self)@, opcode));
        }
        match opcode {
            Opcode::Halt => {
                self.ip = next_ip;
                self.state = VmState::Halted;
                proof {
                    assert(self@ =~= exec_ok(old(self)@, opcode, next_ip as int));
                }
            },
            Opcode::Assign(a, b) => {
                let v = match self.get_value(&b) {
                    Some(v) => v,
                    None => {
                        return Err(VmError::BadOperand);
                    },
                };
                let rg = match Vm::get_register(&self, &a) {
                    Some(rg) => rg,
                    None => {
                        return Err(VmError::BadOperand);
                    },
                };
                self.registers[rg] = v;
                self.ip = next_ip;
                proof {
                    assert(self@ =~= exec_ok(old(self)@, opcode, next_ip as int));
                }
            },
            Opcode::Push(a) => {
                let v = match self.get_value(&a) {
                    Some(v) => v,
                    None => {
                        return Err(VmError::BadOperand);
                    },
                };
                self.stack.push(v);
                self.ip = next_ip;
                proof {
                    assert(self@ =~= exec_ok(old(self)@, opcode, next_ip as int));
                }
            },
            Opcode::Pop(a) => {
                if self.stack.len() == 0 {
                    return Err(VmError::EmptyStack);
                }
                let rg = match Vm::get_register(&self, &a) {
                    Some(rg) => rg,
                    None => {
                        return Err(VmError::BadOperand);
                    },
                };
                let v = match self.stack.pop() {
                    Some(v) => v,
                    None => {
                        return Err(VmError::EmptyStack);
                    },
                };
                self.registers[rg] = v;
                self.ip = next_ip;
                proof {
                    assert(old(self)@.stack.subrange(0, old(self)@.stack.len() - 1)
                        =~= old(self)@.stack.drop_last());
                    assert(self@ =~= exec_ok(old(self)@, opcode, next_ip as int));
                }
            },
            Opcode::Eq(a, b, c) => {
                let vb = match self.get_value(&b) {
                    Some(v) => v,
                    None => {
                        return Err(VmError::BadOperand);
                    },
                };
                let vc = match self.get_value(&c) {
                    Some(v) => v,
                    None => {
                        return Err(VmError::BadOperand);
                    },
                };
                let rg = match Vm::get_register(&self, &a) {
                    Some(rg) => rg,
                    None => {
                        return Err(VmError::BadOperand);
                    },
                };
                self.registers[rg] = if vb == vc {
                    1
                } else {
                    0
                };
                self.ip = next_ip;
                proof {
                    assert(self@ =~= exec_ok(old(self)@, opcode, next_ip as int));
                }
            },
            Opcode::Gt(a, b, c) => {
                let vb = match self.get_value(&b) {
                    Some(v) => v,
                    None => {
                        return Err(VmError::BadOperand);
                    },
                };
                let vc = match self.get_value(&c) {
                    Some(v) => v,
                    None => {
                        return Err(VmError::BadOperand);
                    },
                };
                let rg = match Vm::get_register(&self, &a) {
                    Some(rg) => rg,
                    None => {
                        return Err(VmError::BadOperand);
                    },
                };
                self.registers[rg] = if vb > vc {
                    1
                } else {
                    0
                };
                self.ip = next_ip;
                proof {
                    assert(self@ =~= exec_ok(old(self)@, opcode, next_ip as int));
                }
            },
            Opcode::Jmp(a) => {
                let t = match self.get_value(&a) {
                    Some(v) => v,
                    None => {
                        return Err(VmError::BadOperand);
                    },
                };
                self.ip = t as usize;
                proof {
                    assert(self@ =~= exec_ok(old(self)@, opcode, next_ip as int));
                }
            },
            Opcode::Jt(a, b) => {
                let cond = match self.get_value(&a) {
                    Some(v) => v,
                    None => {
                        return Err(VmError::BadOperand);
                    },
                };
                if cond != 0 {
                    let t = match self.get_value(&b) {
                        Some(v) => v,
                        None => {
                            return Err(VmError::BadOperand);
                        },
                    };
                    self.ip = t as usize;
                } else {
                    self.ip = next_ip;
                }
                proof {
                    assert(self@ =~= exec_ok(old(self)@, opcode, next_ip as int));
                }
            },
            Opcode::Jf(a, b) => {
                let cond = match self.get_value(&a) {
                    Some(v) => v,
                    None => {
                        return Err(VmError::BadOperand);
                    },
                };
                if cond == 0 {
                    let t = match self.get_value(&b) {
                        Some(v) => v,
                        None => {
                            return Err(VmError::BadOperand);
                        },
                    };
                    self.ip = t as usize;
                } else {
                    self.ip = next_ip;
                }
                proof {
                    assert(self@ =~= exec_ok(old(self)@, opcode, next_ip as int));
                }
            },
            Opcode::Add(a, b, c) => {
                let vb = match self.get_value(&b) {
                    Some(v) => v,
                    None => {
                        return Err(VmError::BadOperand);
                    },
                };
                let vc = match self.get_value(&c) {
                    Some(v) => v,
                    None => {
                        return Err(VmError::BadOperand);
                    },
                };
                let rg = match Vm::get_register(&self, &a) {
                    Some(rg) => rg,
                    None => {
                        return Err(VmError::BadOperand);
                    },
                };
                let sum: u32 = (vb as u32) + (vc as u32);
                self.registers[rg] = (sum % 32768) as u16;
                self.ip = next_ip;
                proof {
                    assert((sum % 32768) as u16 == mask15(vb + vc));
                    assert(self@ =~= exec_ok(old(self)@, opcode, next_ip as int));
                }
            },
            Opcode::Mult(a, b, c) => {
                let vb = match self.get_value(&b) {
                    Some(v) => v,
                    None => {
                        return Err(VmError::BadOperand);
                    },
                };
                let vc = match self.get_value(&c) {
                    Some(v) => v,
                    None => {
                        return Err(VmError::BadOperand);
                    },
                };
                let rg = match Vm::get_register(&self, &a) {
                    Some(rg) => rg,
                    None => {
                        return Err(VmError::BadOperand);
                    },
                };
                proof {
                    assert((vb as int) * (vc as int) <= 65535 * 65535) by (nonlinear_arith)
                        requires
                            vb <= 65535,
                            vc <= 65535,
                    ;
                }
                let prod: u32 = (vb as u32) * (vc as u32);
                self.registers[rg] = (prod % 32768) as u16;
                self.ip = next_ip;
                proof {
                    assert((prod % 32768) as u16 == mask15(vb * vc));
                    assert(self@ =~= exec_ok(old(self)@, opcode, next_ip as int));
                }
            },
            Opcode::Mod(a, b, c) => {
                let vb = match self.get_value(&b) {
                    Some(v) => v,
                    None => {
                        return Err(VmError::BadOperand);
                    },
                };
                let vc = match self.get_value(&c) {
                    Some(v) => v,
                    None => {
                        return Err(VmError::BadOperand);
                    },
                };
                let rg = match Vm::get_register(&self, &a) {
                    Some(rg) => rg,
                    None => {
                        return Err(VmError::BadOperand);
                    },
                };
                if vc == 0 {
                    return Err(VmError::DivByZero);
                }
                self.registers[rg] = vb % vc;
                self.ip = next_ip;
                proof {
                    assert(self@ =~= exec_ok(old(self)@, opcode, next_ip as int));
                }
            },
            Opcode::And(a, b, c) => {
                let vb = match self.get_value(&b) {
                    Some(v) => v,
                    None => {
                        return Err(VmError::BadOperand);
                    },
                };
                let vc = match self.get_value(&c) {
                    Some(v) => v,
                    None => {
                        return Err(VmError::BadOperand);
                    },
                };
                let rg = match Vm::get_register(&self, &a) {
                    Some(rg) => rg,
                    None => {
                        return Err(VmError::BadOperand);
                    },
                };
                self.registers[rg] = (vb & vc) % 32768;
                self.ip = next_ip;
                proof {
                    assert(self@ =~= exec_ok(old(self)@, opcode, next_ip as int));
                }
            },
            Opcode::Or(a, b, c) => {
                let vb = match self.get_value(&b) {
                    Some(v) => v,
                    None => {
                        return Err(VmError::BadOperand);
                    },
                };
                let vc = match self.get_value(&c) {
                    Some(v) => v,
                    None => {
                        return Err(VmError::BadOperand);
                    },
                };
                let rg = match Vm::get_register(&self, &a) {
                    Some(rg) => rg,
                    None => {
                        return Err(VmError::BadOperand);
                    },
                };
                self.registers[rg] = (vb | vc) % 32768;
                self.ip = next_ip;
                proof {
                    assert(self@ =~= exec_ok(old(self)@, opcode, next_ip as int));
                }
            },
            Opcode::Not(a, b) => {
                let vb = match self.get_value(&b) {
                    Some(v) => v,
                    None => {
                        return Err(VmError::BadOperand);
                    },
                };
                let rg = match Vm::get_register(&self, &a) {
                    Some(rg) => rg,
                    None => {
                        return Err(VmError::BadOperand);
                    },
                };
                self.registers[rg] = (!vb) % 32768;
                self.ip = next_ip;
                proof {
                    assert(self@ =~= exec_ok(old(self)@, opcode, next_ip as int));
                }
            },
            Opcode::Rmem(a, b) => {
                let addr = match self.get_value(&b) {
                    Some(v) => v,
                    None => {
                        return Err(VmError::BadOperand);
                    },
                };
                let rg = match Vm::get_register(&self, &a) {
                    Some(rg) => rg,
                    None => {
                        return Err(VmError::BadOperand);
                    },
                };
                if addr >= 32768 {
                    return Err(VmError::AddrOutOfRange);
                }
                let v = self.memory[addr as usize];
                self.registers[rg] = v;
                self.ip = next_ip;
                proof {
                    assert(self@ =~= exec_ok(old(self)@, opcode, next_ip as int));
                }
            },
            Opcode::Wmem(a, b) => {
                let addr = match self.get_value(&a) {
                    Some(v) => v,
                    None => {
                        return Err(VmError::BadOperand);
                    },
                };
                let v = match self.get_value(&b) {
                    Some(v) => v,
                    None => {
                        return Err(VmError::BadOperand);
                    },
                };
                if addr >= 32768 {
                    return Err(VmError::AddrOutOfRange);
                }
                self.memory[addr as usize] = v;
                self.ip = next_ip;
                proof {
                    assert(self@ =~= exec_ok(old(self)@, opcode, next_ip as int));
                }
            },
            Opcode::Call(a) => {
                let addr = match self.get_value(&a) {
                    Some(v) => v,
                    None => {
                        return Err(VmError::BadOperand);
                    },
                };
                // A patched call performs the pushed return synthetically:
                // the callee's effect is applied and the stack is left as
                // it was, the pushed return address consumed at once.
                if self.fn_patching && addr == 3 {
                    self.registers[0] = 20;
                    self.ip = next_ip;
                } else if self.fn_patching && addr == 2125 {
                    self.patched_2125();
                    self.ip = next_ip;
                } else if self.fn_patching && addr == 6027 {
                    let r0 = self.registers[0];
                    let r1 = self.registers[1];
                    let r7 = self.registers[7];
                    let res = self.patched_6027(r0, r1, r7);
                    self.registers[0] = res.0;
                    self.registers[1] = res.1;
                    self.ip = next_ip;
                } else {
                    self.stack.push(next_ip as u16);
                    self.ip = addr as usize;
                }
                proof {
                    assert(self@ =~= exec_ok(old(self)@, opcode, next_ip as int));
                }
            },
            Opcode::Ret => {
                if self.stack.len() == 0 {
                    self.ip = next_ip;
                    self.state = VmState::Halted;
                } else {
                    let addr = match self.stack.pop() {
                        Some(v) => v,
                        None => {
                            return Err(VmError::EmptyStack);
                        },
                    };
                    self.ip = addr as usize;
                    proof {
                        assert(old(self)@.stack.subrange(0, old(self)@.stack.len() - 1)
                            =~= old(self)@.stack.drop_last());
                    }
                }
                proof {
                    assert(self@ =~= exec_ok(old(self)@, opcode, next_ip as int));
                }
            },
            Opcode::Out(a) => {
                let v = match self.get_value(&a) {
                    Some(v) => v,
                    None => {
                        return Err(VmError::BadOperand);
                    },
                };
                let ch = (v % 256) as u8 as char;
                self.output_buffer.push(ch);
                self.ip = next_ip;
                proof {
                    assert(self@ =~= exec_ok(old(self)@, opcode, next_ip as int));
                }
            },
            Opcode::In(a) => {
                let rg = match Vm::get_register(&self, &a) {
                    Some(rg) => rg,
                    None => {
                        return Err(VmError::BadOperand);
                    },
                };
                if self.input_buffer.len() > 0 {
                    let b = self.input_buffer.remove(0);
                    self.registers[rg] = b as u16;
                    self.ip = next_ip;
                    proof {
                        assert(old(self)@.input.remove(0) =~= old(self)@.input.skip(1));
                        assert(self@ =~= exec_ok(old(self)@, opcode, next_ip as int));
                    }
                } else {
                    let flushed = string_of_chars(&self.output_buffer);
                    self.messages.push(flushed);
                    self.output_buffer = Vec::new();
                    self.state = VmState::WaitingForInput;
                    proof {
                        assert(self.messages.deep_view() =~= old(self)@.messages.push(
                            old(self)@.output,
                        ));
                        assert(self@ =~= exec_ok(old(self)@, opcode, next_ip as int));
                    }
                }
            },
            Opcode::Noop => {
                self.ip = next_ip;
                proof {
                    assert(self@ =~= exec_ok(old(self)@, opcode, next_ip as int));
                }
            },
        }
        if traced_hit {
            self.trace_buffer.push((ip0, opcode, resolved));
        }
        if self.pc < u64::MAX {
            self.pc = self.pc + 1;
        }
        proof {
            let s0 = old(self)@;
            let sexec = exec_ok(s0, opcode, next_ip as int);
            assert(spec_exec(s0, opcode, next_ip as int) == Ok::<AbsVm, VmError>(sexec));
            let s3 = if s0.traced & (1u32 << spec_tag(opcode)) != 0 {
                AbsVm {
                    trace: sexec.trace.push((ip0, opcode, spec_resolved(s0, opcode))),
                    ..sexec
                }
            } else {
                sexec
            };
            let new_pc = if s3.pc < u64::MAX {
                s3.pc + 1
            } else {
                s3.pc
            };
            assert(spec_step(s0).0 == (AbsVm { pc: new_pc, ..s3 }));
            assert(self@ =~= (AbsVm { pc: new_pc, ..s3 }));
        }
        Ok((ip0, opcode))
    }

    /// The native form of the routine at entry 2125: replace register 0
    /// by the bitwise combination of registers 0 and 1 that the routine
    /// computes, and advance the diagnostic counter by the nine
    /// instructions it stands for.
    pub fn patched_2125(&mut self)
        requires
            old(self).inv(),
        ensures
            final(self).inv(),
            final(self)@ == (AbsVm {
                registers: old(self)@.registers.update(
                    0,
                    spec_bitwise_2125(old(self)@.registers[0], old(self)@.registers[1]),
                ),
                pc: pc_bump(old(self)@.pc, 9),
                ..old(self)@
            }),
    {
        let reg0 = self.registers[0];
        let reg1 = self.registers[1];
        let mut reg2 = (reg0 & reg1) % 32768;
        reg2 = (!reg2) % 32768;
        let or01 = (reg0 | reg1) % 32768;
        let res = (or01 & reg2) % 32768;
        self.registers[0] = res;
        if self.pc <= u64::MAX - 9 {
            self.pc = self.pc + 9;
        } else {
            self.pc = u64::MAX;
        }
        proof {
            assert(res == spec_bitwise_2125(reg0, reg1));
            assert(self@ =~= (AbsVm {
                registers: old(self)@.registers.update(0, spec_bitwise_2125(reg0, reg1)),
                pc: pc_bump(old(self)@.pc, 9),
                ..old(self)@
            }));
        }
    }

    /// The native form of the Ackermann-like routine at entry 6027, on
    /// explicit arguments, memoized in the machine's cache.  Only the
    /// cache changes; the machine's abstract state does not.
    pub fn patched_6027(&mut self, r0: u16, r1: u16, r7: u16) -> (res: (u16, u16))
        requires
            old(self).inv(),
        ensures
            final(self).inv(),
            final(self)@ == old(self)@,
            res == spec_ack(r0, r1, r7),
        decreases r0, r1,
    {
        let key: u64 = (r0 as u64) | ((r1 as u64) << 16) | ((r7 as u64) << 32);
        proof {
            assert((key & 0xFFFF) == r0 as u64 && ((key >> 16) & 0xFFFF) == r1 as u64 && ((key
                >> 32) & 0xFFFF) == r7 as u64 && key >> 48 == 0) by (bit_vector)
                requires
                    key == (r0 as u64) | ((r1 as u64) << 16) | ((r7 as u64) << 32),
            ;
        }
        let cached = match self.cache_6027.get(&key) {
            Some(v) => Some(*v),
            None => None,
        };
        if let Some(v) = cached {
            let a0 = (v & 0xFFFF) as u16;
            let a1 = ((v >> 16) & 0xFFFF) as u16;
            proof {
                let s0 = spec_ack(r0, r1, r7).0;
                let s1 = spec_ack(r0, r1, r7).1;
                assert(v == (s0 as u64) | ((s1 as u64) << 16));
                assert((v & 0xFFFF) == s0 as u64 && ((v >> 16) & 0xFFFF) == s1 as u64)
                    by (bit_vector)
                    requires
                        v == (s0 as u64) | ((s1 as u64) << 16),
                ;
            }
            return (a0, a1);
        }
        let res: (u16, u16) = if r0 == 0 {
            ((((r1 as u32) + 1) % 32768) as u16, r1)
        } else if r1 == 0 {
            self.patched_6027(r0 - 1, r7, r7)
        } else {
            let first = self.patched_6027(r0, r1 - 1, r7);
            self.patched_6027(r0 - 1, first.0, r7)
        };
        let packed: u64 = (res.0 as u64) | ((res.1 as u64) << 16);
        self.cache_6027.insert(key, packed);
        proof {
            assert(self@ =~= old(self)@);
        }
        res
    }
}

/// The comparators of the memory scan.
#[derive(Copy, Clone, Debug, PartialEq, Eq, Structural)]
pub enum ScanCmp {
    Equal,
    NotEqual,
    Greater,
    GreaterOrEqual,
    Less,
    LessOrEqual,
}

/// Whether a shadow entry `b` survives a scan against the target `t`.
pub open spec fn scan_keep(cmp: ScanCmp, b: u16, t: u16) -> bool {
    match cmp {
        ScanCmp::Equal => b == t,
        ScanCmp::NotEqual => b != t,
        ScanCmp::Greater => b > t,
        ScanCmp::GreaterOrEqual => b >= t,
        ScanCmp::Less => b < t,
        ScanCmp::LessOrEqual => b <= t,
    }
}

/// The value a scan compares a shadow entry at cell `i` against: the
/// literal when one is given, the cell's current contents otherwise.
pub open spec fn scan_target(s: AbsVm, val: Option<u16>, i: int) -> u16 {
    match val {
        Some(v) => v,
        None => s.memory[i],
    }
}

impl Vm {
    /// Take a fresh snapshot of all memory into the scan shadow.
    pub fn scanmem_init(&mut self)
        requires
            old(self).inv(),
        ensures
            final(self).inv(),
            final(self)@ == (AbsVm {
                scanmem: Seq::new(32768, |i: int| Some(old(self)@.memory[i])),
                ..old(self)@
            }),
    {
        let mut i: usize = 0;
        proof {
            assert(self@ =~= (AbsVm {
                scanmem: Seq::new(
                    32768,
                    |j: int|
                        if j < 0 {
                            Some(old(self)@.memory[j])
                        } else {
                            old(self)@.scanmem[j]
                        },
                ),
                ..old(self)@
            }));
        }
        while i < 32768
            invariant
                old(self).inv(),
                self.inv(),
                i <= 32768,
                self@ == (AbsVm {
                    scanmem: Seq::new(
                        32768,
                        |j: int|
                            if j < i {
                                Some(old(self)@.memory[j])
                            } else {
                                old(self)@.scanmem[j]
                            },
                    ),
                    ..old(self)@
                }),
            decreases 32768 - i,
        {
            let w = self.memory[i];
            self.scanmem[i] = Some(w);
            proof {
                assert(self@.scanmem =~= Seq::new(
                    32768,
                    |j: int|
                        if j < i + 1 {
                            Some(old(self)@.memory[j])
                        } else {
                            old(self)@.scanmem[j]
                        },
                ));
            }
            i = i + 1;
        }
        proof {
            assert(self@.scanmem =~= Seq::new(32768, |i: int| Some(old(self)@.memory[i])));
        }
    }

    /// Clear every shadow entry that fails the comparison against the
    /// literal value, or against the cell's current contents when no
    /// literal is given; surviving entries keep their snapshot word.
    pub fn scanmem_filter(&mut self, cmp: ScanCmp, val: Option<u16>)
        requires
            old(self).inv(),
        ensures
            final(self).inv(),
            final(self)@ == (AbsVm {
                scanmem: Seq::new(
                    32768,
                    |i: int|
                        match old(self)@.scanmem[i] {
                            Some(b) => if scan_keep(cmp, b, scan_target(old(self)@, val, i)) {
                                Some(b)
                            } else {
                                None
                            },
                            None => None,
                        },
                ),
                ..old(self)@
            }),
    {
        let ghost expected = Seq::new(
            32768,
            |i: int|
                match old(self)@.scanmem[i] {
                    Some(b) => if scan_keep(cmp, b, scan_target(old(self)@, val, i)) {
                        Some(b)
                    } else {
                        None
                    },
                    None => None,
                },
        );
        let mut i: usize = 0;
        proof {
            assert(self@ =~= (AbsVm {
                scanmem: Seq::new(
                    32768,
                    |j: int|
                        if j < 0 {
                            expected[j]
                        } else {
                            old(self)@.scanmem[j]
                        },
                ),
                ..old(self)@
            }));
        }
        while i < 32768
            invariant
                old(self).inv(),
                self.inv(),
                i <= 32768,
                expected == Seq::new(
                    32768,
                    |k: int|
                        match old(self)@.scanmem[k] {
                            Some(b) => if scan_keep(cmp, b, scan_target(old(self)@, val, k)) {
                                Some(b)
                            } else {
                                None
                            },
                            None => None,
                        },
                ),
                self@ == (AbsVm {
                    scanmem: Seq::new(
                        32768,
                        |j: int|
                            if j < i {
                                expected[j]
                            } else {
                                old(self)@.scanmem[j]
                            },
                    ),
                    ..old(self)@
                }),
            decreases 32768 - i,
        {
            match self.scanmem[i] {
                Some(b) => {
                    let t = match val {
                        Some(v) => v,
                        None => self.memory[i],
                    };
                    let keep = match cmp {
                        ScanCmp::Equal => b == t,
                        ScanCmp::NotEqual => b != t,
                        ScanCmp::Greater => b > t,
                        ScanCmp::GreaterOrEqual => b >= t,
                        ScanCmp::Less => b < t,
                        ScanCmp::LessOrEqual => b <= t,
                    };
                    if !keep {
                        self.scanmem[i] = None;
                    }
                },
                None => {},
            }
            proof {
                assert(self@.scanmem =~= Seq::new(
                    32768,
                    |j: int|
                        if j < i + 1 {
                            expected[j]
                        } else {
                            old(self)@.scanmem[j]
                        },
                ));
            }
            i = i + 1;
        }
        proof {
            assert(self@.scanmem =~= expected);
        }
    }

    /// Add an address to the breakpoint set; adding one that is present
    /// changes nothing.
    pub fn set_breakpoint(&mut self, offset: usize)
        requires
            old(self).inv(),
        ensures
            final(self).inv(),
            final(self)@ == (AbsVm {
                breakpoints: if old(self)@.breakpoints.contains(offset) {
                    old(self)@.breakpoints
                } else {
                    old(self)@.breakpoints.push(offset)
                },
                ..old(self)@
            }),
    {
        if !contains_addr(&self.breakpoints, offset) {
            self.breakpoints.push(offset);
            proof {
                let s = self@.breakpoints;
                assert forall|i: int, j: int| 0 <= i < j < s.len() implies s[i] != s[j] by {
                    if j == s.len() - 1 {
                        assert(s[i] == old(self)@.breakpoints[i]);
                        assert(!old(self)@.breakpoints.contains(offset));
                    }
                }
            }
        }
        proof {
            assert(self@ =~= (AbsVm {
                breakpoints: if old(self)@.breakpoints.contains(offset) {
                    old(self)@.breakpoints
                } else {
                    old(self)@.breakpoints.push(offset)
                },
                ..old(self)@
            }));
        }
    }

    /// Remove every occurrence of an address from the breakpoint set;
    /// removing one that is absent changes nothing.
    pub fn unset_breakpoint(&mut self, offset: usize)
        requires
            old(self).inv(),
        ensures
            final(self).inv(),
            final(self)@ == (AbsVm {
                breakpoints: old(self)@.breakpoints.filter(|b: usize| b != offset),
                ..old(self)@
            }),
    {
        let mut kept: Vec<usize> = Vec::new();
        let mut i: usize = 0;
        proof {
            reveal(Seq::filter);
            assert(kept@ =~= old(self)@.breakpoints.take(0).filter(|b: usize| b != offset));
        }
        while i < self.breakpoints.len()
            invariant
                old(self).inv(),
                self.inv(),
                self@ == old(self)@,
                i <= self@.breakpoints.len(),
                kept@ == old(self)@.breakpoints.take(i as int).filter(|b: usize| b != offset),
            decreases self@.breakpoints.len() - i,
        {
            let b = self.breakpoints[i];
            if b != offset {
                kept.push(b);
            }
            proof {
                reveal(Seq::filter);
                let pred = |b: usize| b != offset;
                let pre = old(self)@.breakpoints.take(i as int);
                let post = old(self)@.breakpoints.take(i + 1);
                assert(post.drop_last() =~= pre);
                assert(post.last() == old(self)@.breakpoints[i as int]);
                assert(post.filter(pred) == if pred(post.last()) {
                    pre.filter(pred).push(post.last())
                } else {
                    pre.filter(pred)
                });
            }
            i = i + 1;
        }
        proof {
            assert(old(self)@.breakpoints.take(self@.breakpoints.len() as int)
                =~= old(self)@.breakpoints);
        }
        self.breakpoints = kept;
        proof {
            lemma_filter_unique(old(self)@.breakpoints, |b: usize| b != offset);
            assert(self@ =~= (AbsVm {
                breakpoints: old(self)@.breakpoints.filter(|b: usize| b != offset),
                ..old(self)@
            }));
        }
    }

    /// Assemble an instruction and overwrite memory at `offset` with its
    /// words.  Returns whether the instruction previously decodable
    /// there had a different size, or none could be decoded: the caller
    /// may warn, but the patch is applied either way.
    pub fn patch(&mut self, opcode: Opcode, offset: usize) -> (warn: bool)
        requires
            old(self).inv(),
            wf_op(opcode),
            offset + spec_size(opcode) <= 32768,
        ensures
            final(self).inv(),
            final(self)@ == (AbsVm {
                memory: Seq::new(
                    32768,
                    |i: int|
                        if offset <= i < offset + spec_size(opcode) {
                            spec_assemble(opcode)[i - offset]
                        } else {
                            old(self)@.memory[i]
                        },
                ),
                ..old(self)@
            }),
            warn == (match spec_fetch(old(self)@.memory, offset as int) {
                Option::Some(o) => spec_size(o) != spec_size(opcode),
                Option::None => true,
            }),
    {
        let warn = match self.fetch(offset) {
            Result::Ok(o) => o.size() != opcode.size(),
            Result::Err(_) => true,
        };
        let bin = opcode.assemble();
        let mut i: usize = 0;
        proof {
            assert(self@ =~= (AbsVm {
                memory: Seq::new(
                    32768,
                    |j: int|
                        if offset <= j < offset {
                            spec_assemble(opcode)[j - offset]
                        } else {
                            old(self)@.memory[j]
                        },
                ),
                ..old(self)@
            }));
        }
        while i < bin.len()
            invariant
                old(self).inv(),
                self.inv(),
                bin@ == spec_assemble(opcode),
                bin@.len() == spec_size(opcode),
                offset + spec_size(opcode) <= 32768,
                i <= bin@.len(),
                self@ == (AbsVm {
                    memory: Seq::new(
                        32768,
                        |j: int|
                            if offset <= j < offset + i {
                                spec_assemble(opcode)[j - offset]
                            } else {
                                old(self)@.memory[j]
                            },
                    ),
                    ..old(self)@
                }),
            decreases bin@.len() - i,
        {
            self.memory[offset + i] = bin[i];
            proof {
                assert(self@.memory =~= Seq::new(
                    32768,
                    |j: int|
                        if offset <= j < offset + (i + 1) {
                            spec_assemble(opcode)[j - offset]
                        } else {
                            old(self)@.memory[j]
                        },
                ));
            }
            i = i + 1;
        }
        warn
    }

    /// Disassemble `count` consecutive instructions starting at address
    /// `start`.
    pub fn disassemble(&self, start: usize, count: usize) -> (r: Result<
        Vec<(usize, Opcode)>,
        VmError,
    >)
        requires
            self.inv(),
        ensures
            match r {
                Result::Ok(instrs) => spec_disassemble_n(self@.memory, start as int, count as nat)
                    == Some(instrs@),
                Result::Err(e) => spec_disassemble_n(self@.memory, start as int, count as nat)
                    is None && e == VmError::Decode,
            },
    {
        let mut instructions: Vec<(usize, Opcode)> = Vec::new();
        let mut addr: usize = start;
        let mut left: usize = count;
        while left > 0
            invariant
                self.inv(),
                left <= count,
                spec_disassemble_n(self@.memory, start as int, count as nat) == (
                match spec_disassemble_n(self@.memory, addr as int, left as nat) {
                    Option::Some(rest) => Some(instructions@ + rest),
                    Option::None => None::<Seq<(usize, Opcode)>>,
                }),
            decreases left,
        {
            let instr = match self.fetch(addr) {
                Result::Ok(op) => op,
                Result::Err(e) => {
                    return Err(e);
                },
            };
            let size = instr.size();
            instructions.push((addr, instr));
            proof {
                assert(addr + 1 + crate::assembly::spec_arity(self@.memory[addr as int]) <= 32768);
                assert(spec_disassemble_n(self@.memory, addr as int, left as nat) == (
                match spec_disassemble_n(
                    self@.memory,
                    addr as int + spec_size(instr),
                    (left - 1) as nat,
                ) {
                    Option::Some(rest) => Some(seq![(addr as usize, instr)] + rest),
                    Option::None => None::<Seq<(usize, Opcode)>>,
                }));
            }
            addr = addr + size;
            left = left - 1;
        }
        proof {
            assert(instructions@ + Seq::<(usize, Opcode)>::empty() =~= instructions@);
        }
        Ok(instructions)
    }

    /// The instruction pointer.
    pub fn get_ip(&self) -> (r: usize)
        ensures
            r as int == self@.ip,
    {
        self.ip
    }
}

impl Opcode {
    /// The concrete call a `Call` through a register would take on this
    /// machine; a `Call` of an immediate needs no resolution.
    pub fn resolve_opcode(&self, vm: &Vm) -> (r: Option<Opcode>)
        requires
            vm.inv(),
            match *self {
                Opcode::Call(Val::Num(_)) => true,
                Opcode::Call(Val::Reg(rr)) => rr < 8,
                _ => false,
            },
        ensures
            r == spec_resolved(vm@, *self),
    {
        match self {
            Opcode::Call(Val::Num(_)) => None,
            Opcode::Call(Val::Reg(rr)) => Some(Opcode::Call(Val::Num(vm.registers[*rr]))),
            _ => None,
        }
    }
}

/// The injected termination decision of [`Vm::run_until`]: consulted
/// before every step.
pub trait StopCondition: Sized {
    /// The decision one query makes on a machine, together with the
    /// condition's own successor state.
    spec fn spec_must_stop(pre: Self, vm: AbsVm) -> (Self, Result<bool, VmError>);

    /// Whether the driver should stop before the next step.
    fn must_stop(&mut self, vm: &Vm) -> (r: Result<bool, VmError>)
        requires
            vm.inv(),
        ensures
            *final(self) == Self::spec_must_stop(*old(self), vm@).0,
            r == Self::spec_must_stop(*old(self), vm@).1,
    ;
}

/// Never stops.
pub struct StopNever;

impl StopCondition for StopNever {
    /// Always answers "continue".
    open spec fn spec_must_stop(pre: Self, vm: AbsVm) -> (Self, Result<bool, VmError>) {
        (pre, Ok(false))
    }

    fn must_stop(&mut self, vm: &Vm) -> (r: Result<bool, VmError>) {
        Ok(false)
    }
}

/// Stops when the machine's state is one of a given set.
pub struct StopVmState {
    /// The run states that end the iteration.
    pub states: Vec<VmState>,
}

impl StopVmState {
    /// A stop condition over the given states.
    pub fn new(states: &[VmState]) -> (r: Self)
        ensures
            r.states@ == states@,
    {
        let mut v: Vec<VmState> = Vec::new();
        let mut i: usize = 0;
        while i < states.len()
            invariant
                i <= states@.len(),
                v@ == states@.take(i as int),
            decreases states@.len() - i,
        {
            v.push(states[i]);
            proof {
                assert(states@.take(i as int).push(states@[i as int]) =~= states@.take(i + 1));
            }
            i = i + 1;
        }
        proof {
            assert(states@.take(states@.len() as int) =~= states@);
        }
        StopVmState { states: v }
    }
}

impl StopCondition for StopVmState {
    /// Stops exactly when the machine's state is in the set.
    open spec fn spec_must_stop(pre: Self, vm: AbsVm) -> (Self, Result<bool, VmError>) {
        (pre, Ok(pre.states@.contains(vm.state)))
    }

    fn must_stop(&mut self, vm: &Vm) -> (r: Result<bool, VmError>) {
        let current = vm.get_state();
        let mut i: usize = 0;
        while i < self.states.len()
            invariant
                *self == *old(self),
                current == vm@.state,
                i <= self.states@.len(),
                forall|j: int| 0 <= j < i ==> self.states@[j] != current,
            decreases self.states@.len() - i,
        {
            if self.states[i] == current {
                proof {
                    assert(self.states@.contains(current));
                }
                return Ok(true);
            }
            i = i + 1;
        }
        proof {
            if self.states@.contains(current) {
                let j = choose|j: int| 0 <= j < self.states@.len() && self.states@[j] == current;
                assert(self.states@[j] != current);
            }
        }
        Ok(false)
    }
}

/// Counts calls and returns, and stops at the return that would leave
/// the call depth at which counting began; fails when a return appears
/// below that depth.
pub struct StopRet {
    /// Calls seen so far, less returns.
    pub ret_counter: i32,
}

impl StopRet {
    /// A fresh depth counter.
    pub fn new() -> (r: Self)
        ensures
            r.ret_counter == 0,
    {
        StopRet { ret_counter: 0 }
    }
}

impl StopCondition for StopRet {
    /// Counts a fetched call up and a fetched return down; stops at
    /// the return that balances the first call, fails on a return
    /// below the starting depth or an address that does not decode.
    open spec fn spec_must_stop(pre: Self, vm: AbsVm) -> (Self, Result<bool, VmError>) {
        match spec_fetch(vm.memory, vm.ip) {
            Option::None => (pre, Err(VmError::Decode)),
            Option::Some(op) => match op {
                Opcode::Ret => if pre.ret_counter <= 0 {
                    (pre, Err(VmError::RetImbalance))
                } else {
                    (
                        StopRet { ret_counter: (pre.ret_counter - 1) as i32 },
                        Ok(pre.ret_counter == 1),
                    )
                },
                Opcode::Call(_) => (
                    StopRet {
                        ret_counter: if pre.ret_counter < i32::MAX {
                            (pre.ret_counter + 1) as i32
                        } else {
                            pre.ret_counter
                        },
                    },
                    Ok(false),
                ),
                _ => (pre, Ok(false)),
            },
        }
    }

    fn must_stop(&mut self, vm: &Vm) -> (r: Result<bool, VmError>) {
        let instr = match vm.fetch(vm.ip) {
            Result::Ok(op) => op,
            Result::Err(e) => {
                return Err(e);
            },
        };
        match instr {
            Opcode::Ret => {
                if self.ret_counter <= 0 {
                    return Err(VmError::RetImbalance);
                }
                self.ret_counter = self.ret_counter - 1;
                if self.ret_counter == 0 {
                    Ok(true)
                } else {
                    Ok(false)
                }
            },
            Opcode::Call(_) => {
                if self.ret_counter < i32::MAX {
                    self.ret_counter = self.ret_counter + 1;
                }
                Ok(false)
            },
            _ => Ok(false),
        }
    }
}

/// Stops after a fixed number of successful steps.
pub struct StopInstructionCounter {
    /// Steps still allowed before the next query answers "stop".
    pub instruction_counter: usize,
}

impl StopInstructionCounter {
    /// Stop after `count` more steps.
    pub fn new(count: usize) -> (r: Self)
        ensures
            r.instruction_counter == count,
    {
        StopInstructionCounter { instruction_counter: count }
    }
}

impl StopCondition for StopInstructionCounter {
    /// Answers "continue", counting down, until the budget is spent.
    open spec fn spec_must_stop(pre: Self, vm: AbsVm) -> (Self, Result<bool, VmError>) {
        if pre.instruction_counter == 0 {
            (pre, Ok(true))
        } else {
            (
                StopInstructionCounter {
                    instruction_counter: (pre.instruction_counter - 1) as usize,
                },
                Ok(false),
            )
        }
    }

    fn must_stop(&mut self, vm: &Vm) -> (r: Result<bool, VmError>) {
        if self.instruction_counter == 0 {
            Ok(true)
        } else {
            self.instruction_counter = self.instruction_counter - 1;
            Ok(false)
        }
    }
}

/// A failed step after which the driver stops cleanly rather than
/// reporting an error: a fresh breakpoint suspension, or a machine
/// already halted or suspended at one.
pub open spec fn spec_clean_stop(s: AbsVm) -> bool {
    ||| spec_step(s).1 == Err::<(usize, Opcode), VmError>(VmError::Breakpoint)
    ||| (spec_step(s).1 == Err::<(usize, Opcode), VmError>(VmError::NotRunning) && (s.state
        == VmState::Halted || s.state == VmState::HitBreakPoint))
}

/// A run of the iteration driver: from machine `s0` under stop state
/// `stop0`, every logged step was preceded by a query answering
/// "continue" and succeeded, ending at machine `s1` under stop state
/// `stop1`.
pub open spec fn spec_run_queries<S: StopCondition>(
    stop0: S,
    s0: AbsVm,
    executed: Seq<(usize, Opcode)>,
    stop1: S,
    s1: AbsVm,
) -> bool
    decreases executed.len(),
{
    if executed.len() == 0 {
        stop1 == stop0 && s1 == s0
    } else {
        let q = S::spec_must_stop(stop0, s0);
        &&& q.1 == Ok::<bool, VmError>(false)
        &&& spec_step(s0).1 == Ok::<(usize, Opcode), VmError>(executed[0])
        &&& spec_run_queries(q.0, spec_step(s0).0, executed.skip(1), stop1, s1)
    }
}

/// What a finished run guarantees: the log records exactly the steps
/// performed, each allowed by a "continue" answer of the injected stop
/// condition; iteration ended either because a query said "stop" or
/// because the next step stopped cleanly at a halt or a breakpoint;
/// and a halted machine's output is flushed.
pub open spec fn spec_run_done<S: StopCondition>(
    stop0: S,
    s0: AbsVm,
    s1: AbsVm,
    executed: Seq<(usize, Opcode)>,
) -> bool {
    exists|stop1: S, mid: AbsVm|
        #[trigger] spec_run_queries(stop0, s0, executed, stop1, mid) && ({
            ||| (S::spec_must_stop(stop1, mid).1 == Ok::<bool, VmError>(true) && s1 == spec_finish(
                mid,
            ))
            ||| (S::spec_must_stop(stop1, mid).1 == Ok::<bool, VmError>(false) && spec_clean_stop(
                mid,
            ) && s1 == spec_finish(spec_step(mid).0))
        })
}

/// What an interrupted run guarantees: the machine still lies at the
/// end of a queried run out of the start; the error came from the stop
/// condition itself, from a step that did not stop cleanly, or from
/// the driver's exhausted step budget.
pub open spec fn spec_run_interrupted<S: StopCondition>(
    stop0: S,
    s0: AbsVm,
    s1: AbsVm,
    e: VmError,
) -> bool {
    exists|ex: Seq<(usize, Opcode)>, stop1: S, mid: AbsVm|
        #[trigger] spec_run_queries(stop0, s0, ex, stop1, mid) && ({
            ||| (S::spec_must_stop(stop1, mid).1 == Err::<bool, VmError>(e) && s1 == mid)
            ||| (S::spec_must_stop(stop1, mid).1 == Ok::<bool, VmError>(false) && spec_step(mid).1
                == Err::<(usize, Opcode), VmError>(e) && !spec_clean_stop(mid) && s1 == spec_step(
                mid,
            ).0)
            ||| (e == VmError::StepLimit && s1 == mid)
        })
}

/// A queried run extends by one allowed, successful step at its end.
proof fn lemma_run_queries_snoc<S: StopCondition>(
    stop0: S,
    s0: AbsVm,
    executed: Seq<(usize, Opcode)>,
    stop1: S,
    s1: AbsVm,
    x: (usize, Opcode),
)
    requires
        spec_run_queries(stop0, s0, executed, stop1, s1),
        S::spec_must_stop(stop1, s1).1 == Ok::<bool, VmError>(false),
        spec_step(s1).1 == Ok::<(usize, Opcode), VmError>(x),
    ensures
        spec_run_queries(
            stop0,
            s0,
            executed.push(x),
            S::spec_must_stop(stop1, s1).0,
            spec_step(s1).0,
        ),
    decreases executed.len(),
{
    reveal_with_fuel(spec_run_queries, 3);
    if executed.len() == 0 {
        assert(executed.push(x)[0] == x);
        assert(executed.push(x).skip(1) =~= Seq::<(usize, Opcode)>::empty());
        assert(spec_run_queries(
            S::spec_must_stop(stop0, s0).0,
            spec_step(s0).0,
            executed.push(x).skip(1),
            S::spec_must_stop(stop1, s1).0,
            spec_step(s1).0,
        ));
    } else {
        let q = S::spec_must_stop(stop0, s0);
        lemma_run_queries_snoc(q.0, spec_step(s0).0, executed.skip(1), stop1, s1, x);
        assert(executed.push(x)[0] == executed[0]);
        assert(executed.push(x).skip(1) =~= executed.skip(1).push(x));
        assert(spec_run_queries(
            q.0,
            spec_step(s0).0,
            executed.push(x).skip(1),
            S::spec_must_stop(stop1, s1).0,
            spec_step(s1).0,
        ));
    }
}

impl Vm {
    /// Step until the injected stop condition reports termination, a
    /// breakpoint is reached, or the machine halts; on a halt the
    /// pending output is flushed.  Returns the log of executed steps:
    /// exactly the steps performed, each allowed by a query of the
    /// stop condition.  Any other failure of a step, or of the stop
    /// condition, is reported and leaves the machine as the failed
    /// step left it.  At most `u64::MAX` steps are attempted per
    /// invocation; a run that exhausts that budget reports
    /// `StepLimit`.
    pub fn run_until<S: StopCondition>(&mut self, stop_condition: S) -> (r: Result<
        Vec<(usize, Opcode)>,
        VmError,
    >)
        requires
            old(self).inv(),
        ensures
            final(self).inv(),
            match r {
                Result::Ok(executed) => spec_run_done(
                    stop_condition,
                    old(self)@,
                    final(self)@,
                    executed@,
                ),
                Result::Err(e) => spec_run_interrupted(stop_condition, old(self)@, final(self)@, e),
            },
    {
        let mut stop_state = stop_condition;
        let mut executed: Vec<(usize, Opcode)> = Vec::new();
        let mut fuel: u64 = u64::MAX;
        loop
            invariant_except_break
                self.inv(),
                spec_run_queries(stop_condition, old(self)@, executed@, stop_state, self@),
            ensures
                self.inv(),
                exists|stop1: S, mid: AbsVm|
                    #[trigger] spec_run_queries(stop_condition, old(self)@, executed@, stop1, mid) && ({
                        ||| (S::spec_must_stop(stop1, mid).1 == Ok::<bool, VmError>(true) && self@
                            == mid)
                        ||| (S::spec_must_stop(stop1, mid).1 == Ok::<bool, VmError>(false)
                            && spec_clean_stop(mid) && self@ == spec_step(mid).0)
                    }),
            decreases fuel,
        {
            if fuel == 0 {
                proof {
                    assert(spec_run_queries(stop_condition, old(self)@, executed@, stop_state, self@));
                    assert(spec_run_interrupted(stop_condition, old(self)@, self@, VmError::StepLimit));
                }
                return Err(VmError::StepLimit);
            }
            fuel = fuel - 1;
            let ghost pre_stop = stop_state;
            let ghost pre_vm = self@;
            let stop = match stop_state.must_stop(&*self) {
                Result::Ok(b) => b,
                Result::Err(e) => {
                    proof {
                        assert(spec_run_queries(stop_condition, old(self)@, executed@, pre_stop, pre_vm));
                        assert(S::spec_must_stop(pre_stop, pre_vm).1 == Err::<bool, VmError>(e));
                        assert(spec_run_interrupted(stop_condition, old(self)@, self@, e));
                    }
                    return Err(e);
                },
            };
            if stop {
                proof {
                    assert(spec_run_queries(stop_condition, old(self)@, executed@, pre_stop, pre_vm));
                    assert(S::spec_must_stop(pre_stop, pre_vm).1 == Ok::<bool, VmError>(true));
                }
                break ;
            }
            let ghost prev = self@;
            match self.step() {
                Result::Ok(x) => {
                    proof {
                        lemma_run_queries_snoc(stop_condition, old(self)@, executed@, pre_stop, prev, x);
                    }
                    executed.push(x);
                },
                Result::Err(e) => {
                    let clean = e == VmError::Breakpoint || (e == VmError::NotRunning && (
                    match self.get_state() {
                        VmState::Halted => true,
                        VmState::HitBreakPoint => true,
                        _ => false,
                    }));
                    proof {
                        assert(spec_run_queries(stop_condition, old(self)@, executed@, pre_stop, prev));
                        assert(S::spec_must_stop(pre_stop, prev).1 == Ok::<bool, VmError>(false));
                        assert(self@ == spec_step(prev).0);
                    }
                    if clean {
                        proof {
                            assert(spec_clean_stop(prev));
                        }
                        break ;
                    }
                    proof {
                        assert(!spec_clean_stop(prev));
                        assert(spec_run_interrupted(stop_condition, old(self)@, self@, e));
                    }
                    return Err(e);
                },
            }
        }
        let ghost (stop1, mid) = choose|stop1: S, mid: AbsVm|
            #[trigger] spec_run_queries(stop_condition, old(self)@, executed@, stop1, mid) && ({
                ||| (S::spec_must_stop(stop1, mid).1 == Ok::<bool, VmError>(true) && self@ == mid)
                ||| (S::spec_must_stop(stop1, mid).1 == Ok::<bool, VmError>(false)
                    && spec_clean_stop(mid) && self@ == spec_step(mid).0)
            });
        let ghost pre_flush = self@;
        let halted = match self.get_state() {
            VmState::Halted => true,
            _ => false,
        };
        if halted {
            let flushed = string_of_chars(&self.output_buffer);
            self.messages.push(flushed);
            self.output_buffer = Vec::new();
            proof {
                assert(self.messages.deep_view() =~= pre_flush.messages.push(pre_flush.output));
                assert(self@ =~= spec_finish(pre_flush));
            }
        }
        proof {
            assert(self@ == spec_finish(pre_flush));
            assert(spec_run_queries(stop_condition, old(self)@, executed@, stop1, mid));
            assert(self@ == spec_finish(mid) || self@ == spec_finish(spec_step(mid).0));
            assert(spec_run_done(stop_condition, old(self)@, self@, executed@));
        }
        Ok(executed)
    }
}

/// Whether an address stands in a list of addresses.
fn contains_addr(v: &Vec<usize>, x: usize) -> (r: bool)
    ensures
        r == v@.contains(x),
{
    let mut i: usize = 0;
    while i < v.len()
        invariant
            i <= v@.len(),
            forall|j: int| 0 <= j < i ==> v@[j] != x,
        decreases v@.len() - i,
    {
        if v[i] == x {
            return true;
        }
        i = i + 1;
    }
    false
}

/// A filtered list only holds elements of the original.
proof fn lemma_filter_membership(s: Seq<usize>, pred: spec_fn(usize) -> bool, x: usize)
    requires
        s.filter(pred).contains(x),
    ensures
        s.contains(x),
    decreases s.len(),
{
    reveal(Seq::filter);
    if s.len() > 0 {
        if s.filter(pred) == s.drop_last().filter(pred).push(s.last()) && x == s.last() {
            assert(s.contains(x)) by {
                assert(s[s.len() - 1] == x);
            }
        } else {
            let sub = s.drop_last().filter(pred);
            if sub.contains(x) {
                lemma_filter_membership(s.drop_last(), pred, x);
                let i = choose|i: int| 0 <= i < s.drop_last().len() && s.drop_last()[i] == x;
                assert(s[i] == x);
            } else {
                assert(s.filter(pred) == if pred(s.last()) {
                    sub.push(s.last())
                } else {
                    sub
                });
                assert(x == s.last());
                assert(s[s.len() - 1] == x);
            }
        }
    }
}

/// Filtering a list that holds each address once leaves each address
/// held at most once.
proof fn lemma_filter_unique(s: Seq<usize>, pred: spec_fn(usize) -> bool)
    requires
        unique_addrs(s),
    ensures
        unique_addrs(s.filter(pred)),
    decreases s.len(),
{
    reveal(Seq::filter);
    if s.len() > 0 {
        assert(unique_addrs(s.drop_last())) by {
            assert(forall|i: int, j: int|
                0 <= i < j < s.drop_last().len() ==> s.drop_last()[i] == s[i] && s.drop_last()[j]
                    == s[j]);
        }
        lemma_filter_unique(s.drop_last(), pred);
        if pred(s.last()) {
            let sub = s.drop_last().filter(pred);
            assert forall|i: int, j: int|
                0 <= i < j < s.filter(pred).len() implies s.filter(pred)[i] != s.filter(
                pred,
            )[j] by {
                if j == s.filter(pred).len() - 1 {
                    assert(s.filter(pred)[i] == sub[i]);
                    assert(sub.contains(sub[i]));
                    lemma_filter_membership(s.drop_last(), pred, sub[i]);
                    let k = choose|k: int|
                        0 <= k < s.drop_last().len() && s.drop_last()[k] == sub[i];
                    assert(s[k] == sub[i]);
                    assert(s[k] != s.last());
                } else {
                    assert(s.filter(pred)[i] == sub[i] && s.filter(pred)[j] == sub[j]);
                }
            }
        }
    }
}

/// Relies on `String::push`: appends exactly the given character.
#[verifier::external_body]
pub(crate) fn push_char(s: &mut String, c: char)
    ensures
        final(s)@ == old(s)@.push(c),
{
    s.push(c);
}

/// A string holding exactly the given characters, in order.
pub(crate) fn string_of_chars(chars: &Vec<char>) -> (r: String)
    ensures
        r@ == chars@,
{
    let mut s = String::new();
    let mut i: usize = 0;
    while i < chars.len()
        invariant
            i <= chars@.len(),
            s@ == chars@.take(i as int),
        decreases chars@.len() - i,
    {
        push_char(&mut s, chars[i]);
        proof {
            assert(chars@.take(i as int).push(chars@[i as int]) =~= chars@.take(i + 1));
        }
        i = i + 1;
    }
    proof {
        assert(chars@.take(chars@.len() as int) =~= chars@);
    }
    s
}

/// A copy of a list of copyable items.
pub(crate) fn copy_items<T: Copy>(v: &Vec<T>) -> (r: Vec<T>)
    ensures
        r@ == v@,
{
    let mut r: Vec<T> = Vec::new();
    let mut i: usize = 0;
    while i < v.len()
        invariant
            i <= v@.len(),
            r@ == v@.take(i as int),
        decreases v@.len() - i,
    {
        r.push(v[i]);
        proof {
            assert(v@.take(i as int).push(v@[i as int]) =~= v@.take(i + 1));
        }
        i = i + 1;
    }
    proof {
        assert(v@.take(v@.len() as int) =~= v@);
    }
    r
}

/// A copy of a list of strings.
fn copy_strings(v: &Vec<String>) -> (r: Vec<String>)
    ensures
        r@ == v@,
{
    let mut r: Vec<String> = Vec::new();
    let mut i: usize = 0;
    while i < v.len()
        invariant
            i <= v@.len(),
            r@ == v@.take(i as int),
        decreases v@.len() - i,
    {
        r.push(v[i].clone());
        proof {
            assert(v@.take(i as int).push(v@[i as int]) =~= v@.take(i + 1));
        }
        i = i + 1;
    }
    proof {
        assert(v@.take(v@.len() as int) =~= v@);
    }
    r
}

/// Whether two lists of words are equal.
fn eq_words(a: &Vec<u16>, b: &Vec<u16>) -> (r: bool)
    ensures
        r == (a@ == b@),
{
    if a.len() != b.len() {
        return false;
    }
    let mut i: usize = 0;
    while i < a.len()
        invariant
            a@.len() == b@.len(),
            i <= a@.len(),
            forall|j: int| 0 <= j < i ==> a@[j] == b@[j],
        decreases a@.len() - i,
    {
        if a[i] != b[i] {
            return false;
        }
        i = i + 1;
    }
    proof {
        assert(a@ =~= b@);
    }
    true
}

/// Whether two lists of characters are equal.
fn eq_chars(a: &Vec<char>, b: &Vec<char>) -> (r: bool)
    ensures
        r == (a@ == b@),
{
    if a.len() != b.len() {
        return false;
    }
    let mut i: usize = 0;
    while i < a.len()
        invariant
            a@.len() == b@.len(),
            i <= a@.len(),
            forall|j: int| 0 <= j < i ==> a@[j] == b@[j],
        decreases a@.len() - i,
    {
        if a[i] != b[i] {
            return false;
        }
        i = i + 1;
    }
    proof {
        assert(a@ =~= b@);
    }
    true
}

/// Whether two lists of bytes are equal.
fn eq_bytes(a: &Vec<u8>, b: &Vec<u8>) -> (r: bool)
    ensures
        r == (a@ == b@),
{
    if a.len() != b.len() {
        return false;
    }
    let mut i: usize = 0;
    while i < a.len()
        invariant
            a@.len() == b@.len(),
            i <= a@.len(),
            forall|j: int| 0 <= j < i ==> a@[j] == b@[j],
        decreases a@.len() - i,
    {
        if a[i] != b[i] {
            return false;
        }
        i = i + 1;
    }
    proof {
        assert(a@ =~= b@);
    }
    true
}

/// Whether two message logs hold the same strings.
fn eq_strings(a: &Vec<String>, b: &Vec<String>) -> (r: bool)
    ensures
        r == (a.deep_view() == b.deep_view()),
{
    if a.len() != b.len() {
        proof {
            assert(a.deep_view().len() == a@.len());
            assert(b.deep_view().len() == b@.len());
        }
        return false;
    }
    let mut i: usize = 0;
    while i < a.len()
        invariant
            a@.len() == b@.len(),
            i <= a@.len(),
            forall|j: int| 0 <= j < i ==> a@[j]@ == b@[j]@,
        decreases a@.len() - i,
    {
        if !(a[i] == b[i]) {
            proof {
                assert(a.deep_view()[i as int] == a@[i as int]@);
                assert(b.deep_view()[i as int] == b@[i as int]@);
            }
            return false;
        }
        i = i + 1;
    }
    proof {
        assert(a.deep_view() =~= b.deep_view());
    }
    true
}

impl Clone for Vm {
    /// A snapshot: a deep copy with the same abstract state, fit for
    /// independent execution.
    fn clone(&self) -> (r: Self)
        ensures
            r@ == self@,
            self.inv() ==> r.inv(),
    {
        let r = Vm {
            memory: copy_items(&self.memory),
            registers: copy_items(&self.registers),
            stack: copy_items(&self.stack),
            ip: self.ip,
            pc: self.pc,
            state: self.state,
            output_buffer: copy_items(&self.output_buffer),
            input_buffer: copy_items(&self.input_buffer),
            messages: copy_strings(&self.messages),
            traced_opcodes: self.traced_opcodes,
            trace_buffer: copy_items(&self.trace_buffer),
            fn_patching: self.fn_patching,
            breakpoints: copy_items(&self.breakpoints),
            cache_6027: self.cache_6027.clone(),
            scanmem: copy_items(&self.scanmem),
        };
        proof {
            assert(r@ =~= self@);
        }
        r
    }
}

impl PartialEq for Vm {
    /// Observational equality: memory, registers, stack, instruction
    /// pointer, run state, buffered output and input, and the flushed
    /// messages; the diagnostic counter and the debug auxiliaries are
    /// ignored.
    fn eq(&self, other: &Vm) -> (r: bool) {
        eq_words(&self.memory, &other.memory) && eq_words(&self.registers, &other.registers)
            && eq_words(&self.stack, &other.stack) && self.ip == other.ip && self.state
            == other.state && eq_chars(&self.output_buffer, &other.output_buffer) && eq_bytes(
            &self.input_buffer,
            &other.input_buffer,
        ) && eq_strings(&self.messages, &other.messages)
    }
}

impl vstd::std_specs::cmp::PartialEqSpecImpl for Vm {
    open spec fn obeys_eq_spec() -> bool {
        true
    }

    open spec fn eq_spec(&self, other: &Vm) -> bool {
        obs_eq(self@, other@)
    }
}

} // verus!
